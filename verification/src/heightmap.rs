//! Drop-cutter height map: for every grid sample, the greatest z at which a
//! vertical ray meets the mesh, found with an exact integer barycentric
//! test in the (x, y) plane.

use crate::geom::{Point3, Triangle};
use crate::grid::floor_div;
use vstd::prelude::*;

verus! {

/// Coordinates this module computes on: anything a normalized mesh or its
/// grid can produce.
pub const GEO_LIMIT: i64 = 0x8000_0000;

/// Twice the signed area of the 2D triangle `(a, b, c)`.
pub open spec fn det2(ax: int, ay: int, bx: int, by: int, cx: int, cy: int) -> int {
    (bx - ax) * (cy - ay) - (by - ay) * (cx - ax)
}

/// Twice the signed area of `t`'s (x, y) projection.
pub open spec fn orient2(t: Triangle) -> int {
    det2(t.a.x as int, t.a.y as int, t.b.x as int, t.b.y as int, t.c.x as int, t.c.y as int)
}

/// Orientation sign used to normalize the barycentric weights: +1 for a
/// counter-clockwise projection, -1 for a clockwise one.
pub open spec fn orient_sign(t: Triangle) -> int {
    if orient2(t) < 0 {
        -1
    } else {
        1
    }
}

/// Barycentric weight of vertex `a`: the signed area of `(g, b, c)`,
/// normalized by the triangle's orientation.
pub open spec fn bary_a(t: Triangle, gx: int, gy: int) -> int {
    orient_sign(t) * det2(gx, gy, t.b.x as int, t.b.y as int, t.c.x as int, t.c.y as int)
}

/// Barycentric weight of vertex `b`.
pub open spec fn bary_b(t: Triangle, gx: int, gy: int) -> int {
    orient_sign(t) * det2(t.a.x as int, t.a.y as int, gx, gy, t.c.x as int, t.c.y as int)
}

/// Barycentric weight of vertex `c`.
pub open spec fn bary_c(t: Triangle, gx: int, gy: int) -> int {
    orient_sign(t) * det2(t.a.x as int, t.a.y as int, t.b.x as int, t.b.y as int, gx, gy)
}

/// Twice the projected area, made positive.
pub open spec fn abs_orient(t: Triangle) -> int {
    orient_sign(t) * orient2(t)
}

/// The vertical ray at `(gx, gy)` meets `t`: the projection has non-zero
/// area and all three normalized barycentric weights are non-negative
/// (edges and vertices included, so seams lose nothing).
pub open spec fn covers(t: Triangle, gx: int, gy: int) -> bool {
    &&& orient2(t) != 0
    &&& bary_a(t, gx, gy) >= 0
    &&& bary_b(t, gx, gy) >= 0
    &&& bary_c(t, gx, gy) >= 0
}

/// The z of the ray-triangle intersection: the barycentric combination of
/// the vertex heights, rounded toward negative infinity to the micrometer
/// grid. Meaningful only when `covers` holds.
pub open spec fn zhit(t: Triangle, gx: int, gy: int) -> int {
    floor_div(
        bary_a(t, gx, gy) * t.a.z + bary_b(t, gx, gy) * t.b.z + bary_c(t, gx, gy) * t.c.z,
        abs_orient(t),
    )
}

/// The drop-cutter value: the greatest `zhit` over the triangles of `tris`
/// that cover `(gx, gy)`, or `bottom` when none does.
pub open spec fn drop_z(tris: Seq<Triangle>, gx: int, gy: int, bottom: int) -> int
    decreases tris.len(),
{
    if tris.len() == 0 {
        bottom
    } else {
        let rest = drop_z(tris.drop_last(), gx, gy, bottom);
        let t = tris.last();
        if covers(t, gx, gy) && zhit(t, gx, gy) > rest {
            zhit(t, gx, gy)
        } else {
            rest
        }
    }
}

/// Multiplying by a sign of +1 or -1 keeps or negates the value.
proof fn lemma_sign_mul(s: int, x: int)
    requires
        s == 1 || s == -1,
    ensures
        s * x == (if s == 1 { x } else { -x }),
{
    assert(1 * x == x) by (nonlinear_arith);
    assert((-1) * x == -x) by (nonlinear_arith);
}

/// Splitting a triangle at an interior point splits its doubled area.
proof fn lemma_det2_sum(ax: int, ay: int, bx: int, by: int, cx: int, cy: int, gx: int, gy: int)
    ensures
        det2(gx, gy, bx, by, cx, cy) + det2(ax, ay, gx, gy, cx, cy) + det2(ax, ay, bx, by, gx, gy)
            == det2(ax, ay, bx, by, cx, cy),
{
    let px = gx - ax;
    let py = gy - ay;
    let ux = bx - ax;
    let uy = by - ay;
    let vx = cx - ax;
    let vy = cy - ay;
    assert((ux - px) * (vy - py) == ux * vy - ux * py - px * vy + px * py) by (nonlinear_arith);
    assert((uy - py) * (vx - px) == uy * vx - uy * px - py * vx + py * px) by (nonlinear_arith);
}

/// Core interpolation step: with `p`, `u`, `v` the positions of the sample
/// and of vertices `b`, `c` relative to vertex `a`, the two sub-areas at
/// the sample weight the relative first coordinates back to the sample's.
proof fn lemma_cross_interp(px: int, py: int, ux: int, uy: int, vx: int, vy: int)
    ensures
        (px * vy - py * vx) * ux + (ux * py - uy * px) * vx == (ux * vy - uy * vx) * px,
{
    vstd::arithmetic::mul::lemma_mul_is_distributive_sub_other_way(ux, px * vy, py * vx);
    vstd::arithmetic::mul::lemma_mul_is_distributive_sub_other_way(vx, ux * py, uy * px);
    vstd::arithmetic::mul::lemma_mul_is_distributive_sub_other_way(px, ux * vy, uy * vx);
    assert((px * vy) * ux == (ux * vy) * px) by (nonlinear_arith);
    assert((py * vx) * ux == (ux * py) * vx) by (nonlinear_arith);
    assert((uy * px) * vx == (uy * vx) * px) by (nonlinear_arith);
}

/// The doubled sub-areas at a point, weighted by a chosen coordinate of the
/// vertices (`va`, `vb`, `vc` at vertices `a`, `b`, `c`; `vg` at the
/// sample), reproduce `vg` times the doubled area, provided the chosen
/// coordinate is one of the two that the areas are computed from. Stated
/// for the x coordinate.
#[verifier::spinoff_prover]
proof fn lemma_det2_point_x(ax: int, ay: int, bx: int, by: int, cx: int, cy: int, gx: int, gy: int)
    ensures
        det2(gx, gy, bx, by, cx, cy) * ax + det2(ax, ay, gx, gy, cx, cy) * bx + det2(
            ax,
            ay,
            bx,
            by,
            gx,
            gy,
        ) * cx == det2(ax, ay, bx, by, cx, cy) * gx,
{
    let px = gx - ax;
    let py = gy - ay;
    let ux = bx - ax;
    let uy = by - ay;
    let vx = cx - ax;
    let vy = cy - ay;
    let d0 = ux * vy - uy * vx;
    let d1 = det2(gx, gy, bx, by, cx, cy);
    let d2 = px * vy - py * vx;
    let d3 = ux * py - uy * px;
    assert(d0 == det2(ax, ay, bx, by, cx, cy));
    assert(d2 == det2(ax, ay, gx, gy, cx, cy));
    assert(d3 == det2(ax, ay, bx, by, gx, gy));
    lemma_det2_sum(ax, ay, bx, by, cx, cy, gx, gy);
    lemma_cross_interp(px, py, ux, uy, vx, vy);
    vstd::arithmetic::mul::lemma_mul_is_distributive_add(d2, ax, ux);
    vstd::arithmetic::mul::lemma_mul_is_distributive_add(d3, ax, vx);
    vstd::arithmetic::mul::lemma_mul_is_distributive_add(d0, ax, px);
    vstd::arithmetic::mul::lemma_mul_is_distributive_add_other_way(ax, d1 + d2, d3);
    vstd::arithmetic::mul::lemma_mul_is_distributive_add_other_way(ax, d1, d2);
    vstd::arithmetic::mul::lemma_mul_is_commutative(ax, d0);
    vstd::arithmetic::mul::lemma_mul_is_commutative(ax, d1);
    vstd::arithmetic::mul::lemma_mul_is_commutative(ax, d2);
    vstd::arithmetic::mul::lemma_mul_is_commutative(ax, d3);
}

/// The same interpolation, stated for the y coordinate.
#[verifier::spinoff_prover]
proof fn lemma_det2_point_y(ax: int, ay: int, bx: int, by: int, cx: int, cy: int, gx: int, gy: int)
    ensures
        det2(gx, gy, bx, by, cx, cy) * ay + det2(ax, ay, gx, gy, cx, cy) * by + det2(
            ax,
            ay,
            bx,
            by,
            gx,
            gy,
        ) * cy == det2(ax, ay, bx, by, cx, cy) * gy,
{
    let px = gx - ax;
    let py = gy - ay;
    let ux = bx - ax;
    let uy = by - ay;
    let vx = cx - ax;
    let vy = cy - ay;
    let d0 = ux * vy - uy * vx;
    let d1 = det2(gx, gy, bx, by, cx, cy);
    let d2 = px * vy - py * vx;
    let d3 = ux * py - uy * px;
    assert(d0 == det2(ax, ay, bx, by, cx, cy));
    assert(d2 == det2(ax, ay, gx, gy, cx, cy));
    assert(d3 == det2(ax, ay, bx, by, gx, gy));
    lemma_det2_sum(ax, ay, bx, by, cx, cy, gx, gy);
    assert(d2 * uy + d3 * vy == d0 * py) by {
        vstd::arithmetic::mul::lemma_mul_is_distributive_sub_other_way(uy, px * vy, py * vx);
        vstd::arithmetic::mul::lemma_mul_is_distributive_sub_other_way(vy, ux * py, uy * px);
        vstd::arithmetic::mul::lemma_mul_is_distributive_sub_other_way(py, ux * vy, uy * vx);
        assert((px * vy) * uy == (uy * px) * vy) by (nonlinear_arith);
        assert((py * vx) * uy == (uy * vx) * py) by (nonlinear_arith);
        assert((ux * py) * vy == (ux * vy) * py) by (nonlinear_arith);
    };
    lemma_cross_interp(px, py, ux, uy, vx, vy);
    vstd::arithmetic::mul::lemma_mul_is_distributive_add(d2, ay, uy);
    vstd::arithmetic::mul::lemma_mul_is_distributive_add(d3, ay, vy);
    vstd::arithmetic::mul::lemma_mul_is_distributive_add(d0, ay, py);
    vstd::arithmetic::mul::lemma_mul_is_distributive_add_other_way(ay, d1 + d2, d3);
    vstd::arithmetic::mul::lemma_mul_is_distributive_add_other_way(ay, d1, d2);
    vstd::arithmetic::mul::lemma_mul_is_commutative(ay, d0);
    vstd::arithmetic::mul::lemma_mul_is_commutative(ay, d1);
    vstd::arithmetic::mul::lemma_mul_is_commutative(ay, d2);
    vstd::arithmetic::mul::lemma_mul_is_commutative(ay, d3);
}

/// The three barycentric weights sum to twice the projected area.
pub proof fn lemma_bary_sum(t: Triangle, gx: int, gy: int)
    ensures
        bary_a(t, gx, gy) + bary_b(t, gx, gy) + bary_c(t, gx, gy) == abs_orient(t),
{
    let ax = t.a.x as int;
    let ay = t.a.y as int;
    let bx = t.b.x as int;
    let by = t.b.y as int;
    let cx = t.c.x as int;
    let cy = t.c.y as int;
    let s = orient_sign(t);
    let d1 = det2(gx, gy, bx, by, cx, cy);
    let d2 = det2(ax, ay, gx, gy, cx, cy);
    let d3 = det2(ax, ay, bx, by, gx, gy);
    let d0 = det2(ax, ay, bx, by, cx, cy);
    lemma_det2_sum(ax, ay, bx, by, cx, cy, gx, gy);
    lemma_sign_mul(s, d1);
    lemma_sign_mul(s, d2);
    lemma_sign_mul(s, d3);
    lemma_sign_mul(s, d0);
}

/// If non-negative weights sum to `d` and each value lies in `[lo, hi]`,
/// the weighted sum lies in `[d * lo, d * hi]`.
pub proof fn lemma_weighted_sum_bounds(
    w1: int,
    w2: int,
    w3: int,
    v1: int,
    v2: int,
    v3: int,
    d: int,
    lo: int,
    hi: int,
)
    requires
        w1 >= 0,
        w2 >= 0,
        w3 >= 0,
        d == w1 + w2 + w3,
        lo <= v1 <= hi,
        lo <= v2 <= hi,
        lo <= v3 <= hi,
    ensures
        d * lo <= w1 * v1 + w2 * v2 + w3 * v3 <= d * hi,
{
    vstd::arithmetic::mul::lemma_mul_inequality(lo, v1, w1);
    vstd::arithmetic::mul::lemma_mul_inequality(lo, v2, w2);
    vstd::arithmetic::mul::lemma_mul_inequality(lo, v3, w3);
    vstd::arithmetic::mul::lemma_mul_inequality(v1, hi, w1);
    vstd::arithmetic::mul::lemma_mul_inequality(v2, hi, w2);
    vstd::arithmetic::mul::lemma_mul_inequality(v3, hi, w3);
    vstd::arithmetic::mul::lemma_mul_is_commutative(lo, w1);
    vstd::arithmetic::mul::lemma_mul_is_commutative(lo, w2);
    vstd::arithmetic::mul::lemma_mul_is_commutative(lo, w3);
    vstd::arithmetic::mul::lemma_mul_is_commutative(hi, w1);
    vstd::arithmetic::mul::lemma_mul_is_commutative(hi, w2);
    vstd::arithmetic::mul::lemma_mul_is_commutative(hi, w3);
    vstd::arithmetic::mul::lemma_mul_is_commutative(v1, w1);
    vstd::arithmetic::mul::lemma_mul_is_commutative(v2, w2);
    vstd::arithmetic::mul::lemma_mul_is_commutative(v3, w3);
    assert(d * lo == w1 * lo + w2 * lo + w3 * lo) by {
        vstd::arithmetic::mul::lemma_mul_is_distributive_add_other_way(lo, w1 + w2, w3);
        vstd::arithmetic::mul::lemma_mul_is_distributive_add_other_way(lo, w1, w2);
        vstd::arithmetic::mul::lemma_mul_is_commutative(d, lo);
        vstd::arithmetic::mul::lemma_mul_is_commutative(w1, lo);
        vstd::arithmetic::mul::lemma_mul_is_commutative(w2, lo);
        vstd::arithmetic::mul::lemma_mul_is_commutative(w3, lo);
    };
    assert(d * hi == w1 * hi + w2 * hi + w3 * hi) by {
        vstd::arithmetic::mul::lemma_mul_is_distributive_add_other_way(hi, w1 + w2, w3);
        vstd::arithmetic::mul::lemma_mul_is_distributive_add_other_way(hi, w1, w2);
        vstd::arithmetic::mul::lemma_mul_is_commutative(d, hi);
        vstd::arithmetic::mul::lemma_mul_is_commutative(w1, hi);
        vstd::arithmetic::mul::lemma_mul_is_commutative(w2, hi);
        vstd::arithmetic::mul::lemma_mul_is_commutative(w3, hi);
    };
}

/// A weighted floor-average of integers lies between their minimum and
/// maximum: if every weight is non-negative, the weights sum to `d > 0`,
/// and `lo <= v_i <= hi`, then `lo <= (w1 v1 + w2 v2 + w3 v3) / d <= hi`.
pub proof fn lemma_weighted_average(
    w1: int,
    w2: int,
    w3: int,
    v1: int,
    v2: int,
    v3: int,
    d: int,
    lo: int,
    hi: int,
)
    requires
        w1 >= 0,
        w2 >= 0,
        w3 >= 0,
        d == w1 + w2 + w3,
        d > 0,
        lo <= v1 <= hi,
        lo <= v2 <= hi,
        lo <= v3 <= hi,
    ensures
        lo <= floor_div(w1 * v1 + w2 * v2 + w3 * v3, d) <= hi,
{
    let num = w1 * v1 + w2 * v2 + w3 * v3;
    lemma_weighted_sum_bounds(w1, w2, w3, v1, v2, v3, d, lo, hi);
    vstd::arithmetic::div_mod::lemma_div_is_ordered(d * lo, num, d);
    vstd::arithmetic::div_mod::lemma_div_is_ordered(num, d * hi, d);
    assert((d * lo) / d == lo) by {
        vstd::arithmetic::div_mod::lemma_div_multiples_vanish(lo, d);
    };
    assert((d * hi) / d == hi) by {
        vstd::arithmetic::div_mod::lemma_div_multiples_vanish(hi, d);
    };
}

/// Where a triangle covers a sample, the intersection height lies between
/// the triangle's lowest and highest vertex.
pub proof fn lemma_zhit_bounds(t: Triangle, gx: int, gy: int, lo: int, hi: int)
    requires
        covers(t, gx, gy),
        lo <= t.a.z <= hi,
        lo <= t.b.z <= hi,
        lo <= t.c.z <= hi,
    ensures
        lo <= zhit(t, gx, gy) <= hi,
{
    lemma_bary_sum(t, gx, gy);
    assert(abs_orient(t) > 0) by {
        lemma_sign_mul(orient_sign(t), orient2(t));
    };
    lemma_weighted_average(
        bary_a(t, gx, gy),
        bary_b(t, gx, gy),
        bary_c(t, gx, gy),
        t.a.z as int,
        t.b.z as int,
        t.c.z as int,
        abs_orient(t),
        lo,
        hi,
    );
}

/// A covered sample lies inside the triangle's own 2D bounding box.
pub proof fn lemma_covers_in_bbox(t: Triangle, gx: int, gy: int)
    requires
        covers(t, gx, gy),
    ensures
        vstd::math::min(t.a.x as int, vstd::math::min(t.b.x as int, t.c.x as int)) <= gx
            <= vstd::math::max(t.a.x as int, vstd::math::max(t.b.x as int, t.c.x as int)),
        vstd::math::min(t.a.y as int, vstd::math::min(t.b.y as int, t.c.y as int)) <= gy
            <= vstd::math::max(t.a.y as int, vstd::math::max(t.b.y as int, t.c.y as int)),
{
    let ax = t.a.x as int;
    let ay = t.a.y as int;
    let bx = t.b.x as int;
    let by = t.b.y as int;
    let cx = t.c.x as int;
    let cy = t.c.y as int;
    let s = orient_sign(t);
    let d1 = det2(gx, gy, bx, by, cx, cy);
    let d2 = det2(ax, ay, gx, gy, cx, cy);
    let d3 = det2(ax, ay, bx, by, gx, gy);
    let d0 = det2(ax, ay, bx, by, cx, cy);
    lemma_bary_sum(t, gx, gy);
    assert(abs_orient(t) > 0) by {
        lemma_sign_mul(s, d0);
    };
    lemma_det2_point_x(ax, ay, bx, by, cx, cy, gx, gy);
    lemma_det2_point_y(ax, ay, bx, by, cx, cy, gx, gy);
    let w1 = bary_a(t, gx, gy);
    let w2 = bary_b(t, gx, gy);
    let w3 = bary_c(t, gx, gy);
    let d = abs_orient(t);
    assert(w1 * ax + w2 * bx + w3 * cx == d * gx && w1 * ay + w2 * by + w3 * cy == d * gy) by {
        lemma_sign_mul(s, d1);
        lemma_sign_mul(s, d2);
        lemma_sign_mul(s, d3);
        lemma_sign_mul(s, d0);
        vstd::arithmetic::mul::lemma_mul_unary_negation(d1, ax);
        vstd::arithmetic::mul::lemma_mul_unary_negation(d2, bx);
        vstd::arithmetic::mul::lemma_mul_unary_negation(d3, cx);
        vstd::arithmetic::mul::lemma_mul_unary_negation(d0, gx);
        vstd::arithmetic::mul::lemma_mul_unary_negation(d1, ay);
        vstd::arithmetic::mul::lemma_mul_unary_negation(d2, by);
        vstd::arithmetic::mul::lemma_mul_unary_negation(d3, cy);
        vstd::arithmetic::mul::lemma_mul_unary_negation(d0, gy);
    };
    let lox = vstd::math::min(ax, vstd::math::min(bx, cx));
    let hix = vstd::math::max(ax, vstd::math::max(bx, cx));
    let loy = vstd::math::min(ay, vstd::math::min(by, cy));
    let hiy = vstd::math::max(ay, vstd::math::max(by, cy));
    lemma_weighted_sum_bounds(w1, w2, w3, ax, bx, cx, d, lox, hix);
    lemma_weighted_sum_bounds(w1, w2, w3, ay, by, cy, d, loy, hiy);
    assert(lox <= gx <= hix) by (nonlinear_arith)
        requires
            d > 0,
            d * lox <= d * gx <= d * hix,
    ;
    assert(loy <= gy <= hiy) by (nonlinear_arith)
        requires
            d > 0,
            d * loy <= d * gy <= d * hiy,
    ;
}

/// The drop-cutter value stays between the sentinel floor and the
/// mesh's own height range: at a covered sample it is a height of the
/// covering surface, elsewhere it is `bottom`.
pub proof fn lemma_drop_z_bounds(tris: Seq<Triangle>, gx: int, gy: int, bottom: int, lo: int, hi: int)
    requires
        forall|i: int|
            0 <= i < tris.len() ==> lo <= (#[trigger] tris[i]).a.z <= hi && lo <= tris[i].b.z <= hi
                && lo <= tris[i].c.z <= hi,
        lo <= bottom <= hi,
    ensures
        lo <= drop_z(tris, gx, gy, bottom) <= hi,
    decreases tris.len(),
{
    if tris.len() > 0 {
        lemma_drop_z_bounds(tris.drop_last(), gx, gy, bottom, lo, hi);
        let t = tris.last();
        assert(t == tris[tris.len() - 1]);
        if covers(t, gx, gy) {
            lemma_zhit_bounds(t, gx, gy, lo, hi);
        }
    }
}

/// Thinning a triangle list to any superset of the covering triangles does
/// not change the drop-cutter value.
pub proof fn lemma_drop_z_filter(
    tris: Seq<Triangle>,
    p: spec_fn(Triangle) -> bool,
    gx: int,
    gy: int,
    bottom: int,
)
    requires
        forall|i: int| 0 <= i < tris.len() && covers(#[trigger] tris[i], gx, gy) ==> p(tris[i]),
    ensures
        drop_z(tris.filter(p), gx, gy, bottom) == drop_z(tris, gx, gy, bottom),
    decreases tris.len(),
{
    reveal(Seq::filter);
    if tris.len() > 0 {
        let rest = tris.drop_last();
        assert(forall|i: int|
            0 <= i < rest.len() && covers(#[trigger] rest[i], gx, gy) ==> p(rest[i]));
        lemma_drop_z_filter(rest, p, gx, gy, bottom);
        let last = tris.last();
        assert(last == tris[tris.len() - 1]);
        let f = tris.filter(p);
        let restf = rest.filter(p);
        if p(last) {
            assert(f == restf.push(last));
            assert(f.drop_last() =~= restf);
            assert(f.last() == last);
        } else {
            assert(f == restf);
            assert(!covers(last, gx, gy));
        }
    }
}

/// Partitioning loses nothing: probing only the bucket of triangles whose
/// bounding boxes overlap a column box gives the same height as probing
/// the whole mesh, for every sample inside that box. Every triangle that
/// can stand above the sample overlaps the box and so is in the bucket.
pub proof fn lemma_bucket_complete(
    tris: Seq<Triangle>,
    col: crate::grid::Aabb2,
    gx: int,
    gy: int,
    bottom: int,
)
    requires
        col.x1 <= gx <= col.x2,
        col.y1 <= gy <= col.y2,
    ensures
        drop_z(
            tris.filter(|t: Triangle| crate::partition::tri_hits_box(t, col)),
            gx,
            gy,
            bottom,
        ) == drop_z(tris, gx, gy, bottom),
{
    assert forall|i: int|
        0 <= i < tris.len() && covers(#[trigger] tris[i], gx, gy)
            implies crate::partition::tri_hits_box(tris[i], col) by {
        lemma_covers_in_bbox(tris[i], gx, gy);
    };
    lemma_drop_z_filter(tris, |t: Triangle| crate::partition::tri_hits_box(t, col), gx, gy, bottom);
}

fn exec_det2(ax: i64, ay: i64, bx: i64, by: i64, cx: i64, cy: i64) -> (d: i128)
    requires
        -GEO_LIMIT <= ax <= GEO_LIMIT,
        -GEO_LIMIT <= ay <= GEO_LIMIT,
        -GEO_LIMIT <= bx <= GEO_LIMIT,
        -GEO_LIMIT <= by <= GEO_LIMIT,
        -GEO_LIMIT <= cx <= GEO_LIMIT,
        -GEO_LIMIT <= cy <= GEO_LIMIT,
    ensures
        d == det2(ax as int, ay as int, bx as int, by as int, cx as int, cy as int),
        -0x4_0000_0000_0000_0000_0 <= d <= 0x4_0000_0000_0000_0000_0,
{
    let ux = (bx - ax) as i128;
    let uy = (by - ay) as i128;
    let vx = (cx - ax) as i128;
    let vy = (cy - ay) as i128;
    proof {
        assert(-0x2_0000_0000_0000_0000_0 <= ux * vy <= 0x2_0000_0000_0000_0000_0
            && -0x2_0000_0000_0000_0000_0 <= uy * vx <= 0x2_0000_0000_0000_0000_0)
            by (nonlinear_arith)
            requires
                -0x1_0000_0000 <= ux <= 0x1_0000_0000,
                -0x1_0000_0000 <= uy <= 0x1_0000_0000,
                -0x1_0000_0000 <= vx <= 0x1_0000_0000,
                -0x1_0000_0000 <= vy <= 0x1_0000_0000,
        ;
    }
    ux * vy - uy * vx
}

fn div_floor_i128(n: i128, d: i128) -> (q: i128)
    requires
        0 < d <= 0x8_0000_0000_0000_0000_0,
        -0x1000_0000_0000_0000_0000_0000_0000 <= n <= 0x1000_0000_0000_0000_0000_0000_0000,
    ensures
        q == floor_div(n as int, d as int),
        -0x1000_0000_0000_0000_0000_0000_0000 <= q <= 0x1000_0000_0000_0000_0000_0000_0000,
{
    if n >= 0 {
        let q = (n as u128) / (d as u128);
        proof {
            vstd::arithmetic::div_mod::lemma_div_nonincreasing(n as int, d as int);
            vstd::arithmetic::div_mod::lemma_div_pos_is_pos(n as int, d as int);
        }
        q as i128
    } else {
        let nn = (-n) as u128;
        let du = d as u128;
        let q = (nn + du - 1) / du;
        proof {
            let qi = (nn + du - 1) as int / du as int;
            let ri = (nn + du - 1) as int % du as int;
            vstd::arithmetic::div_mod::lemma_fundamental_div_mod((nn + du - 1) as int, du as int);
            vstd::arithmetic::div_mod::lemma_mod_division_less_than_divisor(
                (nn + du - 1) as int,
                du as int,
            );
            vstd::arithmetic::div_mod::lemma_div_pos_is_pos((nn + du - 1) as int, du as int);
            assert((nn + du - 1) as int <= nn as int * du as int) by (nonlinear_arith)
                requires
                    nn >= 1 && du >= 1,
            ;
            vstd::arithmetic::div_mod::lemma_div_is_ordered(
                (nn + du - 1) as int,
                nn as int * du as int,
                du as int,
            );
            assert((nn as int * du as int) / du as int == nn as int) by {
                assert(nn as int * du as int == du as int * nn as int) by (nonlinear_arith);
                vstd::arithmetic::div_mod::lemma_div_multiples_vanish(nn as int, du as int);
            };
            assert((nn + du - 1) as int == du as int * qi + ri);
            assert((-qi) * d == -(d as int * qi) + 0) by (nonlinear_arith);
            assert(n as int == (-qi) * d + (d - 1 - ri));
            vstd::arithmetic::div_mod::lemma_fundamental_div_mod_converse(
                n as int,
                d as int,
                -qi,
                d - 1 - ri,
            );
        }
        -(q as i128)
    }
}

/// Whether the vertical ray at `(gx, gy)` meets `t`, and at which height.
pub fn tri_zhit_at(t: &Triangle, gx: i64, gy: i64) -> (r: Option<i64>)
    requires
        crate::geom::tri_in_range(*t, GEO_LIMIT as int),
        -GEO_LIMIT <= gx <= GEO_LIMIT,
        -GEO_LIMIT <= gy <= GEO_LIMIT,
    ensures
        r == (if covers(*t, gx as int, gy as int) {
            Some(zhit(*t, gx as int, gy as int) as i64)
        } else {
            None::<i64>
        }),
{
    let d = exec_det2(t.a.x, t.a.y, t.b.x, t.b.y, t.c.x, t.c.y);
    if d == 0 {
        return None;
    }
    let r1 = exec_det2(gx, gy, t.b.x, t.b.y, t.c.x, t.c.y);
    let r2 = exec_det2(t.a.x, t.a.y, gx, gy, t.c.x, t.c.y);
    let r3 = exec_det2(t.a.x, t.a.y, t.b.x, t.b.y, gx, gy);
    let neg = d < 0;
    let w1: i128 = if neg { -r1 } else { r1 };
    let w2: i128 = if neg { -r2 } else { r2 };
    let w3: i128 = if neg { -r3 } else { r3 };
    let dd: i128 = if neg { -d } else { d };
    proof {
        assert(w1 == bary_a(*t, gx as int, gy as int) && w2 == bary_b(*t, gx as int, gy as int)
            && w3 == bary_c(*t, gx as int, gy as int) && dd == abs_orient(*t)) by (nonlinear_arith)
            requires
                orient_sign(*t) == (if neg { -1int } else { 1int }),
                w1 as int == (if neg { -(r1 as int) } else { r1 as int }),
                r1 as int == det2(gx as int, gy as int, t.b.x as int, t.b.y as int, t.c.x as int, t.c.y as int),
                w2 as int == (if neg { -(r2 as int) } else { r2 as int }),
                r2 as int == det2(t.a.x as int, t.a.y as int, gx as int, gy as int, t.c.x as int, t.c.y as int),
                w3 as int == (if neg { -(r3 as int) } else { r3 as int }),
                r3 as int == det2(t.a.x as int, t.a.y as int, t.b.x as int, t.b.y as int, gx as int, gy as int),
                dd as int == (if neg { -(d as int) } else { d as int }),
                d as int == orient2(*t),
                bary_a(*t, gx as int, gy as int) == orient_sign(*t) * det2(gx as int, gy as int, t.b.x as int, t.b.y as int, t.c.x as int, t.c.y as int),
                bary_b(*t, gx as int, gy as int) == orient_sign(*t) * det2(t.a.x as int, t.a.y as int, gx as int, gy as int, t.c.x as int, t.c.y as int),
                bary_c(*t, gx as int, gy as int) == orient_sign(*t) * det2(t.a.x as int, t.a.y as int, t.b.x as int, t.b.y as int, gx as int, gy as int),
                abs_orient(*t) == orient_sign(*t) * orient2(*t),
        ;
    }
    if w1 < 0 || w2 < 0 || w3 < 0 {
        return None;
    }
    proof {
        lemma_bary_sum(*t, gx as int, gy as int);
        let l: int = 0x4_0000_0000_0000_0000_0;
        assert(-(l * 0x8000_0000) <= w1 * t.a.z <= l * 0x8000_0000) by (nonlinear_arith)
            requires
                0 <= w1 <= l,
                -0x8000_0000 <= t.a.z <= 0x8000_0000,
        ;
        assert(-(l * 0x8000_0000) <= w2 * t.b.z <= l * 0x8000_0000) by (nonlinear_arith)
            requires
                0 <= w2 <= l,
                -0x8000_0000 <= t.b.z <= 0x8000_0000,
        ;
        assert(-(l * 0x8000_0000) <= w3 * t.c.z <= l * 0x8000_0000) by (nonlinear_arith)
            requires
                0 <= w3 <= l,
                -0x8000_0000 <= t.c.z <= 0x8000_0000,
        ;
    }
    let num = w1 * (t.a.z as i128) + w2 * (t.b.z as i128) + w3 * (t.c.z as i128);
    let z = div_floor_i128(num, dd);
    proof {
        lemma_zhit_bounds(*t, gx as int, gy as int, -GEO_LIMIT as int, GEO_LIMIT as int);
    }
    Some(z as i64)
}

/// The greatest intersection height over `tris` at `(gx, gy)`, or `bottom`
/// when no triangle covers the sample.
pub fn drop_at(tris: &Vec<Triangle>, gx: i64, gy: i64, bottom: i64) -> (z: i64)
    requires
        crate::geom::mesh_in_range(tris@, GEO_LIMIT as int),
        -GEO_LIMIT <= gx <= GEO_LIMIT,
        -GEO_LIMIT <= gy <= GEO_LIMIT,
        -GEO_LIMIT <= bottom <= GEO_LIMIT,
    ensures
        z as int == drop_z(tris@, gx as int, gy as int, bottom as int),
        -GEO_LIMIT <= z <= GEO_LIMIT,
{
    let mut z = bottom;
    let mut i: usize = 0;
    while i < tris.len()
        invariant
            0 <= i <= tris@.len(),
            crate::geom::mesh_in_range(tris@, GEO_LIMIT as int),
            -GEO_LIMIT <= gx <= GEO_LIMIT,
            -GEO_LIMIT <= gy <= GEO_LIMIT,
            -GEO_LIMIT <= z <= GEO_LIMIT,
            z as int == drop_z(tris@.take(i as int), gx as int, gy as int, bottom as int),
        decreases tris@.len() - i,
    {
        let t = tris[i];
        assert(crate::geom::tri_in_range(tris@[i as int], GEO_LIMIT as int));
        match tri_zhit_at(&t, gx, gy) {
            Some(zt) => {
                proof {
                    lemma_zhit_bounds(t, gx as int, gy as int, -GEO_LIMIT as int, GEO_LIMIT as int);
                }
                if zt > z {
                    z = zt;
                }
            },
            None => {},
        }
        proof {
            assert(tris@.take(i + 1).drop_last() =~= tris@.take(i as int));
            assert(tris@.take(i + 1).last() == tris@[i as int]);
        }
        i = i + 1;
    }
    proof {
        assert(tris@.take(tris@.len() as int) =~= tris@);
    }
    z
}

/// The height map over a sample grid: column `i` is probed against bucket
/// `i / 10` of the partition (each bucket serves a run of ten grid
/// columns), and a sample nothing covers gets the sentinel `bottom` z.
pub fn generate_heightmap(
    grid: &Vec<Vec<Point3>>,
    partition: &Vec<Vec<Triangle>>,
    bottom: i64,
) -> (hm: Vec<Vec<Point3>>)
    requires
        grid@.len() <= partition@.len() * 10,
        forall|c: int|
            0 <= c < partition@.len() ==> crate::geom::mesh_in_range(
                (#[trigger] partition@[c])@,
                GEO_LIMIT as int,
            ),
        forall|i: int, j: int|
            0 <= i < grid@.len() && 0 <= j < grid@[i]@.len() ==> crate::geom::pt_in_range(
                #[trigger] grid@[i]@[j],
                GEO_LIMIT as int,
            ),
        -GEO_LIMIT <= bottom <= GEO_LIMIT,
    ensures
        hm@.len() == grid@.len(),
        forall|i: int| 0 <= i < hm@.len() ==> (#[trigger] hm@[i])@.len() == grid@[i]@.len(),
        forall|i: int, j: int|
            0 <= i < hm@.len() && 0 <= j < hm@[i]@.len() ==> (#[trigger] hm@[i]@[j]) == (Point3 {
                x: grid@[i]@[j].x,
                y: grid@[i]@[j].y,
                z: drop_z(
                    partition@[i / 10]@,
                    grid@[i]@[j].x as int,
                    grid@[i]@[j].y as int,
                    bottom as int,
                ) as i64,
            }),
{
    let mut hm: Vec<Vec<Point3>> = Vec::new();
    let mut i: usize = 0;
    while i < grid.len()
        invariant
            0 <= i <= grid@.len(),
            grid@.len() <= partition@.len() * 10,
            forall|c: int|
                0 <= c < partition@.len() ==> crate::geom::mesh_in_range(
                    (#[trigger] partition@[c])@,
                    GEO_LIMIT as int,
                ),
            forall|k: int, j: int|
                0 <= k < grid@.len() && 0 <= j < grid@[k]@.len() ==> crate::geom::pt_in_range(
                    #[trigger] grid@[k]@[j],
                    GEO_LIMIT as int,
                ),
            -GEO_LIMIT <= bottom <= GEO_LIMIT,
            hm@.len() == i,
            forall|k: int| 0 <= k < i ==> (#[trigger] hm@[k])@.len() == grid@[k]@.len(),
            forall|k: int, j: int|
                0 <= k < i && 0 <= j < hm@[k]@.len() ==> (#[trigger] hm@[k]@[j]) == (Point3 {
                    x: grid@[k]@[j].x,
                    y: grid@[k]@[j].y,
                    z: drop_z(
                        partition@[k / 10]@,
                        grid@[k]@[j].x as int,
                        grid@[k]@[j].y as int,
                        bottom as int,
                    ) as i64,
                }),
        decreases grid@.len() - i,
    {
        let bucket = &partition[i / 10];
        proof {
            let ii = i as int;
            let pl = partition@.len() as int;
            vstd::arithmetic::div_mod::lemma_div_pos_is_pos(ii, 10);
            assert(10 * (ii / 10) <= ii) by {
                vstd::arithmetic::div_mod::lemma_fundamental_div_mod(ii, 10);
                vstd::arithmetic::div_mod::lemma_mod_division_less_than_divisor(ii, 10);
            };
            assert(ii / 10 < pl) by (nonlinear_arith)
                requires
                    10 * (ii / 10) <= ii,
                    ii < pl * 10,
            ;
        }
        let column = &grid[i];
        let mut out: Vec<Point3> = Vec::new();
        let mut j: usize = 0;
        while j < column.len()
            invariant
                0 <= j <= column@.len(),
                0 <= i < grid@.len(),
                column@ == grid@[i as int]@,
                0 <= i as int / 10 < partition@.len(),
                bucket@ == partition@[i as int / 10]@,
                crate::geom::mesh_in_range(bucket@, GEO_LIMIT as int),
                forall|k: int, jj: int|
                    0 <= k < grid@.len() && 0 <= jj < grid@[k]@.len()
                        ==> crate::geom::pt_in_range(#[trigger] grid@[k]@[jj], GEO_LIMIT as int),
                -GEO_LIMIT <= bottom <= GEO_LIMIT,
                out@.len() == j,
                forall|jj: int|
                    0 <= jj < j ==> (#[trigger] out@[jj]) == (Point3 {
                        x: grid@[i as int]@[jj].x,
                        y: grid@[i as int]@[jj].y,
                        z: drop_z(
                            partition@[i as int / 10]@,
                            grid@[i as int]@[jj].x as int,
                            grid@[i as int]@[jj].y as int,
                            bottom as int,
                        ) as i64,
                    }),
            decreases column@.len() - j,
        {
            let p = column[j];
            assert(crate::geom::pt_in_range(grid@[i as int]@[j as int], GEO_LIMIT as int));
            let z = drop_at(bucket, p.x, p.y, bottom);
            out.push(Point3 { x: p.x, y: p.y, z });
            j = j + 1;
        }
        hm.push(out);
        i = i + 1;
    }
    hm
}

/// The starting stock map: one point per height-map sample at the same
/// (x, y), with z at the stock top, 0.
pub fn generate_rest_map(heightmap: &Vec<Vec<Point3>>) -> (rest: Vec<Vec<Point3>>)
    ensures
        rest@.len() == heightmap@.len(),
        forall|i: int| 0 <= i < rest@.len() ==> (#[trigger] rest@[i])@.len() == heightmap@[i]@.len(),
        forall|i: int, j: int|
            0 <= i < rest@.len() && 0 <= j < rest@[i]@.len() ==> (#[trigger] rest@[i]@[j]) == (Point3 {
                x: heightmap@[i]@[j].x,
                y: heightmap@[i]@[j].y,
                z: 0,
            }),
{
    let mut rest: Vec<Vec<Point3>> = Vec::new();
    let mut i: usize = 0;
    while i < heightmap.len()
        invariant
            0 <= i <= heightmap@.len(),
            rest@.len() == i,
            forall|k: int|
                0 <= k < i ==> (#[trigger] rest@[k])@.len() == heightmap@[k]@.len(),
            forall|k: int, j: int|
                0 <= k < i && 0 <= j < rest@[k]@.len() ==> (#[trigger] rest@[k]@[j]) == (Point3 {
                    x: heightmap@[k]@[j].x,
                    y: heightmap@[k]@[j].y,
                    z: 0,
                }),
        decreases heightmap@.len() - i,
    {
        let column = &heightmap[i];
        let mut out: Vec<Point3> = Vec::new();
        let mut j: usize = 0;
        while j < column.len()
            invariant
                0 <= j <= column@.len(),
                0 <= i < heightmap@.len(),
                column@ == heightmap@[i as int]@,
                out@.len() == j,
                forall|jj: int|
                    0 <= jj < j ==> (#[trigger] out@[jj]) == (Point3 {
                        x: heightmap@[i as int]@[jj].x,
                        y: heightmap@[i as int]@[jj].y,
                        z: 0,
                    }),
            decreases column@.len() - j,
        {
            let p = column[j];
            out.push(Point3 { x: p.x, y: p.y, z: 0 });
            j = j + 1;
        }
        rest.push(out);
        i = i + 1;
    }
    rest
}

} // verus!
