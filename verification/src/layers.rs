//! The rest-milling engine: one tool-offset pass produces a layer of
//! cutting heights from the height map and the current stock map, the
//! update pass records what the cutter body swept, and the layer loop
//! repeats until the stock stops changing or the iteration cap is hit.

use crate::geom::Point3;
use crate::grid::{ceil_div, floor_div};
use vstd::prelude::*;

verus! {

/// One layer sample: the cutting position in micrometers, with `z = None`
/// where this pass has nothing to cut.
#[derive(Clone, Copy, PartialEq, Eq, Debug)]
pub struct LayerPoint {
    pub x: i64,
    pub y: i64,
    pub z: Option<i64>,
}

/// The mathematical view of a 2D array: a sequence of column sequences.
pub open spec fn view2<T>(m: Vec<Vec<T>>) -> Seq<Seq<T>> {
    Seq::new(m@.len() as nat, |i: int| m@[i]@)
}

/// A map with `segments` columns of `rows` points each.
pub open spec fn shape_ok(m: Seq<Seq<Point3>>, segments: int, rows: int) -> bool {
    &&& m.len() == segments
    &&& forall|i: int| 0 <= i < m.len() ==> (#[trigger] m[i]).len() == rows
}

/// Every z value of the map lies in `[lo, hi]`.
pub open spec fn map_z_in(m: Seq<Seq<Point3>>, lo: int, hi: int) -> bool {
    forall|i: int, j: int|
        0 <= i < m.len() && 0 <= j < m[i].len() ==> lo <= (#[trigger] m[i][j]).z <= hi
}

/// Generous bound on any z a height or stock map can hold.
pub const Z_LIMIT: i64 = 0x1_0000_0000;

/// The tool-offset candidate height for sample `(x, y)` and tool offset
/// `p`: the remaining material under the offset cell, clamped to at most
/// `d` of depth, lifts the tip so the body clears; `None` when the offset
/// cell falls outside the grid.
pub open spec fn cand_z(
    hm: Seq<Seq<Point3>>,
    sm: Seq<Seq<Point3>>,
    segments: int,
    rows: int,
    res: int,
    d: int,
    x: int,
    y: int,
    p: Point3,
) -> Option<int> {
    let xo = x + floor_div(p.x as int, res);
    let yo = y + floor_div(p.y as int, res);
    if 0 <= xo < segments && 0 <= yo < rows {
        let diff0 = hm[xo][yo].z - sm[xo][yo].z;
        let diff = if diff0 < -d {
            -d
        } else if diff0 > 0 {
            0
        } else {
            diff0
        };
        Some(sm[xo][yo].z + diff - p.z)
    } else {
        None
    }
}

/// The larger of two optional heights; `None` acts as the identity.
pub open spec fn omax(a: Option<int>, b: Option<int>) -> Option<int> {
    match a {
        Option::None => b,
        Option::Some(av) => match b {
            Option::None => a,
            Option::Some(bv) => if av >= bv {
                a
            } else {
                b
            },
        },
    }
}

/// The tightest constraint over all tool offsets: the maximum candidate,
/// or `None` when every offset misses the grid.
pub open spec fn best_cand(
    hm: Seq<Seq<Point3>>,
    sm: Seq<Seq<Point3>>,
    segments: int,
    rows: int,
    res: int,
    d: int,
    pts: Seq<Point3>,
    x: int,
    y: int,
) -> Option<int>
    decreases pts.len(),
{
    if pts.len() == 0 {
        Option::None
    } else {
        omax(
            best_cand(hm, sm, segments, rows, res, d, pts.drop_last(), x, y),
            cand_z(hm, sm, segments, rows, res, d, x, y, pts.last()),
        )
    }
}

/// The layer sample at grid cell `(x, y)`: the best candidate, demoted to
/// `None` when it equals the current stock height (nothing to cut there).
pub open spec fn layer_point(
    hm: Seq<Seq<Point3>>,
    sm: Seq<Seq<Point3>>,
    segments: int,
    rows: int,
    res: int,
    d: int,
    pts: Seq<Point3>,
    x: int,
    y: int,
) -> LayerPoint {
    LayerPoint {
        x: (x * res) as i64,
        y: (y * res) as i64,
        z: match best_cand(hm, sm, segments, rows, res, d, pts, x, y) {
            Option::None => Option::None,
            Option::Some(m) => if m == sm[x][y].z {
                Option::None
            } else {
                Option::Some(m as i64)
            },
        },
    }
}

/// How many columns a pass samples: every `k`-th grid column from `first`.
pub open spec fn layer_cols(segments: int, first: int, k: int) -> int {
    if first >= segments {
        0
    } else {
        ceil_div(segments - first, k)
    }
}

/// The whole layer of one pass: columns `x = first + ci * k`, rows
/// `y = first .. rows`.
pub open spec fn layer_of(
    hm: Seq<Seq<Point3>>,
    sm: Seq<Seq<Point3>>,
    segments: int,
    rows: int,
    res: int,
    d: int,
    pts: Seq<Point3>,
    first: int,
    k: int,
) -> Seq<Seq<LayerPoint>> {
    Seq::new(
        layer_cols(segments, first, k) as nat,
        |ci: int|
            Seq::new(
                (if rows > first {
                    rows - first
                } else {
                    0
                }) as nat,
                |rj: int| layer_point(hm, sm, segments, rows, res, d, pts, first + ci * k, first + rj),
            ),
    )
}

/// Widen an optional machine height to its mathematical value.
pub open spec fn o2i(o: Option<i64>) -> Option<int> {
    match o {
        Option::None => Option::None,
        Option::Some(v) => Option::Some(v as int),
    }
}

fn omax_exec(a: Option<i64>, b: Option<i64>) -> (r: Option<i64>)
    ensures
        o2i(r) == omax(o2i(a), o2i(b)),
{
    match a {
        Option::None => b,
        Option::Some(av) => match b {
            Option::None => a,
            Option::Some(bv) => if av >= bv {
                Some(av)
            } else {
                Some(bv)
            },
        },
    }
}

/// The candidate height of one tool offset at sample `(x, y)`.
fn cand_at(
    hm: &Vec<Vec<Point3>>,
    sm: &Vec<Vec<Point3>>,
    segments: usize,
    rows: usize,
    res: i64,
    d: i64,
    x: usize,
    y: usize,
    p: &Point3,
) -> (r: Option<i64>)
    requires
        shape_ok(view2(*hm), segments as int, rows as int),
        shape_ok(view2(*sm), segments as int, rows as int),
        map_z_in(view2(*hm), -Z_LIMIT as int, Z_LIMIT as int),
        map_z_in(view2(*sm), -Z_LIMIT as int, Z_LIMIT as int),
        crate::grid::valid_resolution(res),
        0 <= d <= 4 * Z_LIMIT,
        x < segments,
        y < rows,
        segments <= 0x1_0000_0000,
        rows <= 0x1_0000_0000,
        crate::tool::tool_point_ok(*p, crate::tool::RADIUS_LIMIT as int),
    ensures
        o2i(r) == cand_z(
            view2(*hm),
            view2(*sm),
            segments as int,
            rows as int,
            res as int,
            d as int,
            x as int,
            y as int,
            *p,
        ),
        r is Some ==> -6 * Z_LIMIT <= r->0 <= 6 * Z_LIMIT,
{
    let pxs = crate::grid::div_floor(p.x, res);
    let pys = crate::grid::div_floor(p.y, res);
    proof {
        vstd::arithmetic::div_mod::lemma_div_pos_is_pos(p.x as int, res as int);
        vstd::arithmetic::div_mod::lemma_div_pos_is_pos(p.y as int, res as int);
        vstd::arithmetic::div_mod::lemma_div_nonincreasing(p.x as int, res as int);
        vstd::arithmetic::div_mod::lemma_div_nonincreasing(p.y as int, res as int);
    }
    let xo = x as i64 + pxs;
    let yo = y as i64 + pys;
    if 0 <= xo && xo < segments as i64 && 0 <= yo && yo < rows as i64 {
        let xi = xo as usize;
        let yi = yo as usize;
        let hz = hm[xi][yi].z;
        let sz = sm[xi][yi].z;
        proof {
            assert(view2(*hm)[xi as int][yi as int] == hm@[xi as int]@[yi as int]);
            assert(view2(*sm)[xi as int][yi as int] == sm@[xi as int]@[yi as int]);
        }
        let diff0 = hz - sz;
        let diff = if diff0 < -d {
            -d
        } else if diff0 > 0 {
            0
        } else {
            diff0
        };
        Some(sz + diff - p.z)
    } else {
        None
    }
}

/// The best candidate over all tool offsets at sample `(x, y)`.
fn best_at(
    hm: &Vec<Vec<Point3>>,
    sm: &Vec<Vec<Point3>>,
    segments: usize,
    rows: usize,
    res: i64,
    d: i64,
    tool: &crate::tool::Tool,
    x: usize,
    y: usize,
) -> (r: Option<i64>)
    requires
        shape_ok(view2(*hm), segments as int, rows as int),
        shape_ok(view2(*sm), segments as int, rows as int),
        map_z_in(view2(*hm), -Z_LIMIT as int, Z_LIMIT as int),
        map_z_in(view2(*sm), -Z_LIMIT as int, Z_LIMIT as int),
        crate::grid::valid_resolution(res),
        0 <= d <= 4 * Z_LIMIT,
        x < segments,
        y < rows,
        segments <= 0x1_0000_0000,
        rows <= 0x1_0000_0000,
        crate::tool::tool_ok(*tool),
    ensures
        o2i(r) == best_cand(
            view2(*hm),
            view2(*sm),
            segments as int,
            rows as int,
            res as int,
            d as int,
            tool.points@,
            x as int,
            y as int,
        ),
        r is Some ==> -6 * Z_LIMIT <= r->0 <= 6 * Z_LIMIT,
{
    let mut acc: Option<i64> = None;
    let mut i: usize = 0;
    while i < tool.points.len()
        invariant
            0 <= i <= tool.points@.len(),
            shape_ok(view2(*hm), segments as int, rows as int),
            shape_ok(view2(*sm), segments as int, rows as int),
            map_z_in(view2(*hm), -Z_LIMIT as int, Z_LIMIT as int),
            map_z_in(view2(*sm), -Z_LIMIT as int, Z_LIMIT as int),
            crate::grid::valid_resolution(res),
            0 <= d <= 4 * Z_LIMIT,
            x < segments,
            y < rows,
            segments <= 0x1_0000_0000,
            rows <= 0x1_0000_0000,
            crate::tool::tool_ok(*tool),
            o2i(acc) == best_cand(
                view2(*hm),
                view2(*sm),
                segments as int,
                rows as int,
                res as int,
                d as int,
                tool.points@.take(i as int),
                x as int,
                y as int,
            ),
            acc is Some ==> -6 * Z_LIMIT <= acc->0 <= 6 * Z_LIMIT,
        decreases tool.points@.len() - i,
    {
        let p = tool.points[i];
        assert(crate::tool::tool_point_ok(tool.points@[i as int], tool.radius as int));
        let c = cand_at(hm, sm, segments, rows, res, d, x, y, &p);
        acc = omax_exec(acc, c);
        proof {
            assert(tool.points@.take(i + 1).drop_last() =~= tool.points@.take(i as int));
            assert(tool.points@.take(i + 1).last() == tool.points@[i as int]);
        }
        i = i + 1;
    }
    proof {
        assert(tool.points@.take(tool.points@.len() as int) =~= tool.points@);
    }
    acc
}

/// One tool-offset pass: sample every `k`-th column from `first`, and
/// every row from `first`, against the height map and the current stock.
pub fn compute_layer(
    hm: &Vec<Vec<Point3>>,
    sm: &Vec<Vec<Point3>>,
    segments: usize,
    rows: usize,
    res: i64,
    d: i64,
    tool: &crate::tool::Tool,
    first: usize,
    k: usize,
) -> (layer: Vec<Vec<LayerPoint>>)
    requires
        shape_ok(view2(*hm), segments as int, rows as int),
        shape_ok(view2(*sm), segments as int, rows as int),
        map_z_in(view2(*hm), -Z_LIMIT as int, Z_LIMIT as int),
        map_z_in(view2(*sm), -Z_LIMIT as int, Z_LIMIT as int),
        crate::grid::valid_resolution(res),
        0 <= d <= 4 * Z_LIMIT,
        segments <= 0x1_0000_0000,
        rows <= 0x1_0000_0000,
        first <= 1_000_000,
        1 <= k <= 1_000_000,
        crate::tool::tool_ok(*tool),
    ensures
        view2(layer) == layer_of(
            view2(*hm),
            view2(*sm),
            segments as int,
            rows as int,
            res as int,
            d as int,
            tool.points@,
            first as int,
            k as int,
        ),
{
    let ghost target = layer_of(
        view2(*hm),
        view2(*sm),
        segments as int,
        rows as int,
        res as int,
        d as int,
        tool.points@,
        first as int,
        k as int,
    );
    let mut layer: Vec<Vec<LayerPoint>> = Vec::new();
    let mut ci: u64 = 0;
    let mut xx: u64 = first as u64;
    proof {
        if first < segments {
            crate::grid::lemma_ceil_div_props(segments as int - first as int, k as int);
            let a = segments as int - first as int;
            let q = ceil_div(a, k as int);
            assert(1 <= q <= a) by (nonlinear_arith)
                requires
                    (k as int) * (q - 1) < a <= (k as int) * q && 1 <= k && 1 <= a,
            ;
            assert(target.len() == q);
        }
    }
    while xx < segments as u64
        invariant
            0 <= ci,
            ci == layer@.len(),
            ci <= target.len(),
            xx == first + ci * (k as int),
            target.len() <= 0x1_0000_0000,
            segments <= 0x1_0000_0000,
            rows <= 0x1_0000_0000,
            first <= 1_000_000,
            1 <= k <= 1_000_000,
            shape_ok(view2(*hm), segments as int, rows as int),
            shape_ok(view2(*sm), segments as int, rows as int),
            map_z_in(view2(*hm), -Z_LIMIT as int, Z_LIMIT as int),
            map_z_in(view2(*sm), -Z_LIMIT as int, Z_LIMIT as int),
            crate::grid::valid_resolution(res),
            0 <= d <= 4 * Z_LIMIT,
            crate::tool::tool_ok(*tool),
            first < segments ==> (k as int) * (target.len() - 1) < segments - first,
            first < segments ==> segments - first <= (k as int) * target.len(),
            first >= segments ==> target.len() == 0,
            xx < segments ==> ci < target.len(),
            xx >= segments ==> ci == target.len(),
            target == layer_of(
                view2(*hm),
                view2(*sm),
                segments as int,
                rows as int,
                res as int,
                d as int,
                tool.points@,
                first as int,
                k as int,
            ),
            forall|cc: int| 0 <= cc < layer@.len() ==> (#[trigger] layer@[cc])@ == target[cc],
        decreases target.len() - ci,
    {
        let x: usize = xx as usize;
        let mut column: Vec<LayerPoint> = Vec::new();
        let mut y: usize = first;
        if rows <= first {
            y = rows;
        }
        while y < rows
            invariant
                first <= y <= rows || (y == rows && first >= rows),
                first <= x < segments,
                segments <= 0x1_0000_0000,
                rows <= 0x1_0000_0000,
                first <= 1_000_000,
                shape_ok(view2(*hm), segments as int, rows as int),
                shape_ok(view2(*sm), segments as int, rows as int),
                map_z_in(view2(*hm), -Z_LIMIT as int, Z_LIMIT as int),
                map_z_in(view2(*sm), -Z_LIMIT as int, Z_LIMIT as int),
                crate::grid::valid_resolution(res),
                0 <= d <= 4 * Z_LIMIT,
                crate::tool::tool_ok(*tool),
                column@.len() == (if y as int > first as int {
                    y - first
                } else {
                    0
                }),
                forall|rj: int|
                    0 <= rj < column@.len() ==> (#[trigger] column@[rj]) == layer_point(
                        view2(*hm),
                        view2(*sm),
                        segments as int,
                        rows as int,
                        res as int,
                        d as int,
                        tool.points@,
                        x as int,
                        first + rj,
                    ),
            decreases rows - y,
        {
            let best = best_at(hm, sm, segments, rows, res, d, tool, x, y);
            proof {
                assert(view2(*sm)[x as int][y as int] == sm@[x as int]@[y as int]);
                assert(sm@.len() == view2(*sm).len());
                assert(sm@[x as int]@.len() == view2(*sm)[x as int].len());
            }
            let sz = sm[x][y].z;
            let z: Option<i64> = match best {
                Option::None => None,
                Option::Some(m) => if m == sz {
                    None
                } else {
                    Some(m)
                },
            };
            proof {
                assert(0 <= (x as int) * (res as int) <= 0x1_0000_0000 * 1000 && 0 <= (y as int) * (
                res as int) <= 0x1_0000_0000 * 1000) by (nonlinear_arith)
                    requires
                        0 <= x <= 0x1_0000_0000,
                        0 <= y <= 0x1_0000_0000,
                        1 <= res <= 1000,
                ;
            }
            column.push(LayerPoint { x: x as i64 * res, y: y as i64 * res, z });
            y = y + 1;
        }
        proof {
            let nrows: int = if rows as int > first as int {
                rows - first
            } else {
                0
            };
            assert(column@.len() == nrows);
            assert(ci < target.len());
            assert(target[ci as int] =~= column@) by {
                assert forall|rj: int| 0 <= rj < nrows implies target[ci as int][rj]
                    == column@[rj] by {
                    assert(column@[rj] == layer_point(
                        view2(*hm),
                        view2(*sm),
                        segments as int,
                        rows as int,
                        res as int,
                        d as int,
                        tool.points@,
                        x as int,
                        first + rj,
                    ));
                    assert(first + (ci as int) * k == x as int);
                };
            };
        }
        layer.push(column);
        ci = ci + 1;
        xx = xx + k as u64;
        proof {
            assert((ci as int) * (k as int) == (ci - 1) * (k as int) + k) by (nonlinear_arith);
            if xx < segments {
                assert(ci < target.len()) by (nonlinear_arith)
                    requires
                        first + ci * (k as int) < segments && segments - first <= (k as int)
                            * target.len() && 1 <= k && 0 <= ci,
                ;
            } else {
                assert(ci >= target.len()) by (nonlinear_arith)
                    requires
                        first + ci * (k as int) >= segments && (k as int) * (target.len() - 1)
                            < segments - first && 1 <= k && target.len() >= 1,
                ;
            }
        }
    }
    proof {
        if first < segments {
        } else {
            assert(target.len() == 0);
        }
        assert(layer@.len() == target.len());
        assert(view2(layer) =~= target);
    }
    layer
}

/// One cell write of the update pass: the stock at `(xo, yo)` drops to
/// the swept height `v` if that is lower.
pub open spec fn stock_write(sm: Seq<Seq<Point3>>, xo: int, yo: int, v: int) -> Seq<Seq<Point3>> {
    sm.update(
        xo,
        sm[xo].update(
            yo,
            Point3 {
                x: sm[xo][yo].x,
                y: sm[xo][yo].y,
                z: vstd::math::min(sm[xo][yo].z as int, v) as i64,
            },
        ),
    )
}

/// The stock after recording what the cutter body swept at one layer
/// point, offset by offset.
pub open spec fn stock_after_offsets(
    sm: Seq<Seq<Point3>>,
    lp: LayerPoint,
    lz: int,
    pts: Seq<Point3>,
    res: int,
    segments: int,
    rows: int,
) -> Seq<Seq<Point3>>
    decreases pts.len(),
{
    if pts.len() == 0 {
        sm
    } else {
        let prev = stock_after_offsets(sm, lp, lz, pts.drop_last(), res, segments, rows);
        let p = pts.last();
        let xo = floor_div(lp.x + p.x, res);
        let yo = floor_div(lp.y + p.y, res);
        if 0 <= xo < segments && 0 <= yo < rows {
            stock_write(prev, xo, yo, lz + p.z)
        } else {
            prev
        }
    }
}

/// The stock after one layer point: a sentinel point changes nothing.
pub open spec fn stock_after_point(
    sm: Seq<Seq<Point3>>,
    lp: LayerPoint,
    pts: Seq<Point3>,
    res: int,
    segments: int,
    rows: int,
) -> Seq<Seq<Point3>> {
    match lp.z {
        Option::None => sm,
        Option::Some(lz) => stock_after_offsets(sm, lp, lz as int, pts, res, segments, rows),
    }
}

/// The stock after one layer column, points applied in row order.
pub open spec fn stock_after_column(
    sm: Seq<Seq<Point3>>,
    col: Seq<LayerPoint>,
    pts: Seq<Point3>,
    res: int,
    segments: int,
    rows: int,
) -> Seq<Seq<Point3>>
    decreases col.len(),
{
    if col.len() == 0 {
        sm
    } else {
        stock_after_point(
            stock_after_column(sm, col.drop_last(), pts, res, segments, rows),
            col.last(),
            pts,
            res,
            segments,
            rows,
        )
    }
}

/// The stock after a whole layer, columns applied in order.
pub open spec fn stock_after_layer(
    sm: Seq<Seq<Point3>>,
    layer: Seq<Seq<LayerPoint>>,
    pts: Seq<Point3>,
    res: int,
    segments: int,
    rows: int,
) -> Seq<Seq<Point3>>
    decreases layer.len(),
{
    if layer.len() == 0 {
        sm
    } else {
        stock_after_column(
            stock_after_layer(sm, layer.drop_last(), pts, res, segments, rows),
            layer.last(),
            pts,
            res,
            segments,
            rows,
        )
    }
}

/// Whether the update write of layer point `lp` through tool offset `p`
/// lands on the grid.
pub open spec fn upd_in_grid(lp: LayerPoint, p: Point3, res: int, segments: int, rows: int) -> bool {
    &&& 0 <= floor_div(lp.x + p.x, res) < segments
    &&& 0 <= floor_div(lp.y + p.y, res) < rows
}

/// Every swept height the update pass will write stays in `[lo, hi]`: the
/// guard that keeps the stock map bounded.
pub open spec fn layer_update_safe(
    layer: Seq<Seq<LayerPoint>>,
    pts: Seq<Point3>,
    res: int,
    segments: int,
    rows: int,
    lo: int,
    hi: int,
) -> bool {
    forall|ci: int, rj: int, pi: int|
        #![trigger layer[ci][rj], pts[pi]]
        0 <= ci < layer.len() && 0 <= rj < layer[ci].len() && 0 <= pi < pts.len()
            && layer[ci][rj].z is Some && upd_in_grid(layer[ci][rj], pts[pi], res, segments, rows)
            ==> lo <= layer[ci][rj].z->0 + pts[pi].z <= hi
}

/// A write preserves shape, positions and upper bounds, and never raises
/// a cell; with the swept height at or above `lo` it preserves `lo` too.
proof fn lemma_stock_write_frame(sm: Seq<Seq<Point3>>, xo: int, yo: int, v: int, segments: int, rows: int)
    requires
        shape_ok(sm, segments, rows),
        0 <= xo < segments,
        0 <= yo < rows,
        i64::MIN <= v <= i64::MAX,
    ensures
        shape_ok(stock_write(sm, xo, yo, v), segments, rows),
        forall|i: int, j: int|
            0 <= i < segments && 0 <= j < rows ==> {
                let nw = #[trigger] stock_write(sm, xo, yo, v)[i][j];
                nw.x == sm[i][j].x && nw.y == sm[i][j].y && nw.z <= sm[i][j].z && (nw.z == sm[i][j].z
                    || (i == xo && j == yo && nw.z == v))
            },
{
    assert forall|i: int, j: int| 0 <= i < segments && 0 <= j < rows implies {
        let nw = #[trigger] stock_write(sm, xo, yo, v)[i][j];
        nw.x == sm[i][j].x && nw.y == sm[i][j].y && nw.z <= sm[i][j].z && (nw.z == sm[i][j].z || (i
            == xo && j == yo && nw.z == v))
    } by {
        let col = sm[xo].update(
            yo,
            Point3 {
                x: sm[xo][yo].x,
                y: sm[xo][yo].y,
                z: vstd::math::min(sm[xo][yo].z as int, v) as i64,
            },
        );
        assert(stock_write(sm, xo, yo, v) == sm.update(xo, col));
        if i == xo {
            assert(stock_write(sm, xo, yo, v)[i] == col);
            if j == yo {
                assert(col[yo] == Point3 {
                    x: sm[xo][yo].x,
                    y: sm[xo][yo].y,
                    z: vstd::math::min(sm[xo][yo].z as int, v) as i64,
                });
                assert(vstd::math::min(sm[xo][yo].z as int, v) == sm[xo][yo].z as int
                    || vstd::math::min(sm[xo][yo].z as int, v) == v);
            } else {
                assert(col[j] == sm[xo][j]);
            }
        } else {
            assert(stock_write(sm, xo, yo, v)[i] == sm[i]);
        }
    };
}

/// The update by one layer point preserves shape and positions, never
/// raises a cell, and keeps every cell at or above `lo` when its swept
/// heights do.
proof fn lemma_offsets_frame(
    sm: Seq<Seq<Point3>>,
    lp: LayerPoint,
    lz: int,
    pts: Seq<Point3>,
    res: int,
    segments: int,
    rows: int,
    lo: int,
    hi: int,
)
    requires
        shape_ok(sm, segments, rows),
        1 <= res,
        -0x4000_0000_0000_0000 <= lo <= hi <= 0x4000_0000_0000_0000,
        forall|pi: int|
            0 <= pi < pts.len() && upd_in_grid(lp, #[trigger] pts[pi], res, segments, rows) ==> lo
                <= lz + pts[pi].z <= hi,
    ensures
        shape_ok(stock_after_offsets(sm, lp, lz, pts, res, segments, rows), segments, rows),
        forall|i: int, j: int|
            0 <= i < segments && 0 <= j < rows ==> {
                let nw = #[trigger] stock_after_offsets(sm, lp, lz, pts, res, segments, rows)[i][j];
                nw.x == sm[i][j].x && nw.y == sm[i][j].y && nw.z <= sm[i][j].z && (lo <= sm[i][j].z
                    ==> lo <= nw.z)
            },
    decreases pts.len(),
{
    if pts.len() > 0 {
        let rest = pts.drop_last();
        assert(forall|pi: int|
            0 <= pi < rest.len() && upd_in_grid(lp, #[trigger] rest[pi], res, segments, rows)
                ==> lo <= lz + rest[pi].z <= hi);
        lemma_offsets_frame(sm, lp, lz, rest, res, segments, rows, lo, hi);
        let prev = stock_after_offsets(sm, lp, lz, rest, res, segments, rows);
        let p = pts.last();
        assert(p == pts[pts.len() - 1]);
        let xo = floor_div(lp.x + p.x, res);
        let yo = floor_div(lp.y + p.y, res);
        if 0 <= xo < segments && 0 <= yo < rows {
            assert(upd_in_grid(lp, p, res, segments, rows));
            lemma_stock_write_frame(prev, xo, yo, lz + p.z, segments, rows);
        }
    }
}

/// The same frame for one whole layer point.
proof fn lemma_point_frame(
    sm: Seq<Seq<Point3>>,
    lp: LayerPoint,
    pts: Seq<Point3>,
    res: int,
    segments: int,
    rows: int,
    lo: int,
    hi: int,
)
    requires
        shape_ok(sm, segments, rows),
        1 <= res,
        -0x4000_0000_0000_0000 <= lo <= hi <= 0x4000_0000_0000_0000,
        forall|pi: int|
            0 <= pi < pts.len() && lp.z is Some && upd_in_grid(
                lp,
                #[trigger] pts[pi],
                res,
                segments,
                rows,
            ) ==> lo <= lp.z->0 + pts[pi].z <= hi,
    ensures
        shape_ok(stock_after_point(sm, lp, pts, res, segments, rows), segments, rows),
        forall|i: int, j: int|
            0 <= i < segments && 0 <= j < rows ==> {
                let nw = #[trigger] stock_after_point(sm, lp, pts, res, segments, rows)[i][j];
                nw.x == sm[i][j].x && nw.y == sm[i][j].y && nw.z <= sm[i][j].z && (lo <= sm[i][j].z
                    ==> lo <= nw.z)
            },
{
    match lp.z {
        Option::None => {},
        Option::Some(lz) => {
            lemma_offsets_frame(sm, lp, lz as int, pts, res, segments, rows, lo, hi);
        },
    }
}

/// The same frame for one layer column.
proof fn lemma_column_frame(
    sm: Seq<Seq<Point3>>,
    col: Seq<LayerPoint>,
    pts: Seq<Point3>,
    res: int,
    segments: int,
    rows: int,
    lo: int,
    hi: int,
)
    requires
        shape_ok(sm, segments, rows),
        1 <= res,
        -0x4000_0000_0000_0000 <= lo <= hi <= 0x4000_0000_0000_0000,
        forall|rj: int, pi: int|
            #![trigger col[rj], pts[pi]]
            0 <= rj < col.len() && 0 <= pi < pts.len() && col[rj].z is Some && upd_in_grid(
                col[rj],
                pts[pi],
                res,
                segments,
                rows,
            ) ==> lo <= col[rj].z->0 + pts[pi].z <= hi,
    ensures
        shape_ok(stock_after_column(sm, col, pts, res, segments, rows), segments, rows),
        forall|i: int, j: int|
            0 <= i < segments && 0 <= j < rows ==> {
                let nw = #[trigger] stock_after_column(sm, col, pts, res, segments, rows)[i][j];
                nw.x == sm[i][j].x && nw.y == sm[i][j].y && nw.z <= sm[i][j].z && (lo <= sm[i][j].z
                    ==> lo <= nw.z)
            },
    decreases col.len(),
{
    if col.len() > 0 {
        let rest = col.drop_last();
        lemma_column_frame(sm, rest, pts, res, segments, rows, lo, hi);
        let mid = stock_after_column(sm, rest, pts, res, segments, rows);
        assert(col.last() == col[col.len() - 1]);
        lemma_point_frame(mid, col.last(), pts, res, segments, rows, lo, hi);
    }
}

/// The update pass of a whole layer preserves the maps' shape and
/// positions, never raises a stock cell, and keeps every cell at or above
/// `lo` when the layer's swept heights respect `[lo, hi]`. The
/// never-raises part is the stock map's monotonic decrease.
pub proof fn lemma_layer_frame(
    sm: Seq<Seq<Point3>>,
    layer: Seq<Seq<LayerPoint>>,
    pts: Seq<Point3>,
    res: int,
    segments: int,
    rows: int,
    lo: int,
    hi: int,
)
    requires
        shape_ok(sm, segments, rows),
        1 <= res,
        -0x4000_0000_0000_0000 <= lo <= hi <= 0x4000_0000_0000_0000,
        layer_update_safe(layer, pts, res, segments, rows, lo, hi),
    ensures
        shape_ok(stock_after_layer(sm, layer, pts, res, segments, rows), segments, rows),
        forall|i: int, j: int|
            0 <= i < segments && 0 <= j < rows ==> {
                let nw = #[trigger] stock_after_layer(sm, layer, pts, res, segments, rows)[i][j];
                nw.x == sm[i][j].x && nw.y == sm[i][j].y && nw.z <= sm[i][j].z && (lo <= sm[i][j].z
                    ==> lo <= nw.z)
            },
    decreases layer.len(),
{
    if layer.len() > 0 {
        let rest = layer.drop_last();
        assert(layer_update_safe(rest, pts, res, segments, rows, lo, hi)) by {
            assert(forall|ci: int, rj: int| 0 <= ci < rest.len() && 0 <= rj < rest[ci].len()
                ==> rest[ci] == layer[ci] && #[trigger] rest[ci][rj] == layer[ci][rj]);
        };
        lemma_layer_frame(sm, rest, pts, res, segments, rows, lo, hi);
        let mid = stock_after_layer(sm, rest, pts, res, segments, rows);
        assert(layer.last() == layer[layer.len() - 1]);
        lemma_column_frame(mid, layer.last(), pts, res, segments, rows, lo, hi);
    }
}

/// Bounds on a layer's stored values that the update pass needs: sample
/// positions on the grid lattice and swept heights within range.
pub open spec fn layer_vals_ok(layer: Seq<Seq<LayerPoint>>) -> bool {
    forall|ci: int, rj: int|
        0 <= ci < layer.len() && 0 <= rj < layer[ci].len() ==> {
            let lp = #[trigger] layer[ci][rj];
            0 <= lp.x <= 0x400_0000_0000 && 0 <= lp.y <= 0x400_0000_0000 && (lp.z is Some
                ==> -6 * Z_LIMIT <= lp.z->0 <= 6 * Z_LIMIT)
        }
}

/// The update pass: for every non-sentinel layer point and every tool
/// offset, lower the stock cell under the offset to the swept height if
/// that is lower. Records the material the cutter body removed.
pub fn apply_layer(
    sm: &mut Vec<Vec<Point3>>,
    layer: &Vec<Vec<LayerPoint>>,
    tool: &crate::tool::Tool,
    res: i64,
    segments: usize,
    rows: usize,
)
    requires
        shape_ok(view2(*old(sm)), segments as int, rows as int),
        crate::grid::valid_resolution(res),
        segments <= 0x1_0000_0000,
        rows <= 0x1_0000_0000,
        crate::tool::tool_ok(*tool),
        layer_vals_ok(view2(*layer)),
    ensures
        view2(*final(sm)) == stock_after_layer(
            view2(*old(sm)),
            view2(*layer),
            tool.points@,
            res as int,
            segments as int,
            rows as int,
        ),
{
    let ghost orig = view2(*old(sm));
    let ghost pts = tool.points@;
    let ghost lview = view2(*layer);
    let mut ci: usize = 0;
    while ci < layer.len()
        invariant
            0 <= ci <= layer@.len(),
            lview == view2(*layer),
            lview.len() == layer@.len(),
            pts == tool.points@,
            crate::grid::valid_resolution(res),
            segments <= 0x1_0000_0000,
            rows <= 0x1_0000_0000,
            crate::tool::tool_ok(*tool),
            layer_vals_ok(lview),
            shape_ok(orig, segments as int, rows as int),
            shape_ok(view2(*sm), segments as int, rows as int),
            view2(*sm) == stock_after_layer(
                orig,
                lview.take(ci as int),
                pts,
                res as int,
                segments as int,
                rows as int,
            ),
        decreases layer@.len() - ci,
    {
        let column = &layer[ci];
        let ghost mid0 = view2(*sm);
        let mut rj: usize = 0;
        while rj < column.len()
            invariant
                0 <= rj <= column@.len(),
                0 <= ci < layer@.len(),
                column@ == layer@[ci as int]@,
                lview == view2(*layer),
                lview.len() == layer@.len(),
                lview[ci as int] == column@,
                pts == tool.points@,
                crate::grid::valid_resolution(res),
                segments <= 0x1_0000_0000,
                rows <= 0x1_0000_0000,
                crate::tool::tool_ok(*tool),
                layer_vals_ok(lview),
                shape_ok(mid0, segments as int, rows as int),
                shape_ok(view2(*sm), segments as int, rows as int),
                view2(*sm) == stock_after_column(
                    mid0,
                    column@.take(rj as int),
                    pts,
                    res as int,
                    segments as int,
                    rows as int,
                ),
        decreases column@.len() - rj,
        {
            let lp = column[rj];
            assert(lp == lview[ci as int][rj as int]);
            match lp.z {
                Option::None => {
                    proof {
                        assert(column@.take(rj + 1).drop_last() =~= column@.take(rj as int));
                        assert(column@.take(rj + 1).last() == column@[rj as int]);
                    }
                },
                Option::Some(lz) => {
                    let ghost mid1 = view2(*sm);
                    let mut pi: usize = 0;
                    while pi < tool.points.len()
                        invariant
                            0 <= pi <= pts.len(),
                            pts == tool.points@,
                            crate::grid::valid_resolution(res),
                            segments <= 0x1_0000_0000,
                            rows <= 0x1_0000_0000,
                            crate::tool::tool_ok(*tool),
                            0 <= lp.x <= 0x1_0000_0000_0000,
                            0 <= lp.y <= 0x1_0000_0000_0000,
                            -6 * Z_LIMIT <= lz <= 6 * Z_LIMIT,
                            shape_ok(mid1, segments as int, rows as int),
                            shape_ok(view2(*sm), segments as int, rows as int),
                            view2(*sm) == stock_after_offsets(
                                mid1,
                                lp,
                                lz as int,
                                pts.take(pi as int),
                                res as int,
                                segments as int,
                                rows as int,
                            ),
                        decreases pts.len() - pi,
                    {
                        let p = tool.points[pi];
                        assert(crate::tool::tool_point_ok(pts[pi as int], tool.radius as int));
                        let xo = crate::grid::div_floor(lp.x + p.x, res);
                        let yo = crate::grid::div_floor(lp.y + p.y, res);
                        proof {
                            assert(pts.take(pi + 1).drop_last() =~= pts.take(pi as int));
                            assert(pts.take(pi + 1).last() == pts[pi as int]);
                        }
                        if 0 <= xo && xo < segments as i64 && 0 <= yo && yo < rows as i64 {
                            let xi = xo as usize;
                            let yi = yo as usize;
                            proof {
                                assert(view2(*sm).len() == sm@.len());
                                assert(view2(*sm)[xi as int].len() == sm@[xi as int]@.len());
                            }
                            let w = lz + p.z;
                            let cur = sm[xi][yi];
                            let nz = if w < cur.z {
                                w
                            } else {
                                cur.z
                            };
                            sm[xi].set(yi, Point3 { x: cur.x, y: cur.y, z: nz });
                            proof {
                                assert(view2(*sm) =~= stock_write(
                                    stock_after_offsets(
                                        mid1,
                                        lp,
                                        lz as int,
                                        pts.take(pi as int),
                                        res as int,
                                        segments as int,
                                        rows as int,
                                    ),
                                    xi as int,
                                    yi as int,
                                    lz + p.z,
                                )) by {
                                    assert forall|i: int|
                                        0 <= i < segments implies view2(*sm)[i] =~= stock_write(
                                        stock_after_offsets(
                                            mid1,
                                            lp,
                                            lz as int,
                                            pts.take(pi as int),
                                            res as int,
                                            segments as int,
                                            rows as int,
                                        ),
                                        xi as int,
                                        yi as int,
                                        lz + p.z,
                                    )[i] by {};
                                };
                            }
                        }
                        pi = pi + 1;
                    }
                    proof {
                        assert(pts.take(pts.len() as int) =~= pts);
                        assert(column@.take(rj + 1).drop_last() =~= column@.take(rj as int));
                        assert(column@.take(rj + 1).last() == column@[rj as int]);
                    }
                },
            }
            rj = rj + 1;
        }
        proof {
            assert(column@.take(column@.len() as int) =~= column@);
            assert(lview.take(ci + 1).drop_last() =~= lview.take(ci as int));
            assert(lview.take(ci + 1).last() == lview[ci as int]);
        }
        ci = ci + 1;
    }
    proof {
        assert(lview.take(lview.len() as int) =~= lview);
    }
}

/// Bounds of one candidate: wherever a tool offset lands on the grid, the
/// candidate keeps the swept height (candidate plus offset z) between the
/// stock floor and the stock top, and the candidate itself between the
/// floor and the deepest possible tool rise.
proof fn lemma_cand_bounds(
    hm: Seq<Seq<Point3>>,
    sm: Seq<Seq<Point3>>,
    segments: int,
    rows: int,
    res: int,
    d: int,
    x: int,
    y: int,
    p: Point3,
    lo: int,
)
    requires
        shape_ok(hm, segments, rows),
        shape_ok(sm, segments, rows),
        map_z_in(hm, lo, 0),
        map_z_in(sm, lo, 0),
        0 <= d,
        lo <= 0,
        crate::tool::tool_point_ok(p, crate::tool::RADIUS_LIMIT as int),
    ensures
        cand_z(hm, sm, segments, rows, res, d, x, y, p) matches Option::Some(c) ==> lo <= c + p.z
            <= 0 && lo <= c <= 1000 * crate::tool::RADIUS_LIMIT,
{
    let r = cand_z(hm, sm, segments, rows, res, d, x, y, p);
    if r is Some {
        let xo = x + floor_div(p.x as int, res);
        let yo = y + floor_div(p.y as int, res);
        assert(0 <= xo < segments && 0 <= yo < rows);
        assert(lo <= hm[xo][yo].z <= 0);
        assert(lo <= sm[xo][yo].z <= 0);
    }
}

/// The best candidate dominates every single candidate and inherits their
/// bounds.
proof fn lemma_best_cand_props(
    hm: Seq<Seq<Point3>>,
    sm: Seq<Seq<Point3>>,
    segments: int,
    rows: int,
    res: int,
    d: int,
    pts: Seq<Point3>,
    x: int,
    y: int,
    lo: int,
)
    requires
        shape_ok(hm, segments, rows),
        shape_ok(sm, segments, rows),
        map_z_in(hm, lo, 0),
        map_z_in(sm, lo, 0),
        0 <= d,
        lo <= 0,
        forall|pi: int|
            0 <= pi < pts.len() ==> crate::tool::tool_point_ok(
                #[trigger] pts[pi],
                crate::tool::RADIUS_LIMIT as int,
            ),
    ensures
        best_cand(hm, sm, segments, rows, res, d, pts, x, y) matches Option::Some(m) ==> lo <= m
            <= 1000 * crate::tool::RADIUS_LIMIT,
        forall|pi: int|
            0 <= pi < pts.len() && #[trigger] cand_z(hm, sm, segments, rows, res, d, x, y, pts[pi])
                is Some ==> best_cand(hm, sm, segments, rows, res, d, pts, x, y) is Some
                && best_cand(hm, sm, segments, rows, res, d, pts, x, y)->0 >= cand_z(
                hm,
                sm,
                segments,
                rows,
                res,
                d,
                x,
                y,
                pts[pi],
            )->0,
    decreases pts.len(),
{
    if pts.len() > 0 {
        let rest = pts.drop_last();
        lemma_best_cand_props(hm, sm, segments, rows, res, d, rest, x, y, lo);
        let p = pts.last();
        assert(p == pts[pts.len() - 1]);
        lemma_cand_bounds(hm, sm, segments, rows, res, d, x, y, p, lo);
        assert(forall|pi: int| 0 <= pi < rest.len() ==> rest[pi] == pts[pi]);
    }
}

/// Per-point facts of a computed layer: its stored position is the lattice
/// position, and any stored height is the best candidate, within bounds.
proof fn lemma_layer_of_point_props(
    hm: Seq<Seq<Point3>>,
    sm: Seq<Seq<Point3>>,
    segments: int,
    rows: int,
    res: int,
    d: int,
    pts: Seq<Point3>,
    first: int,
    k: int,
    lo: int,
    ci: int,
    rj: int,
)
    requires
        shape_ok(hm, segments, rows),
        shape_ok(sm, segments, rows),
        map_z_in(hm, lo, 0),
        map_z_in(sm, lo, 0),
        0 <= d,
        -(Z_LIMIT as int) <= lo <= 0,
        1 <= res <= 1000,
        0 <= first,
        1 <= k,
        segments <= 0x1_0000_0000,
        rows <= 0x1_0000_0000,
        forall|pi: int|
            0 <= pi < pts.len() ==> crate::tool::tool_point_ok(
                #[trigger] pts[pi],
                crate::tool::RADIUS_LIMIT as int,
            ),
        0 <= ci < layer_of(hm, sm, segments, rows, res, d, pts, first, k).len(),
        0 <= rj < layer_of(hm, sm, segments, rows, res, d, pts, first, k)[ci].len(),
    ensures
        ({
            let lp = layer_of(hm, sm, segments, rows, res, d, pts, first, k)[ci][rj];
            let x = first + ci * k;
            let y = first + rj;
            &&& 0 <= x < segments
            &&& 0 <= y < rows
            &&& lp == layer_point(hm, sm, segments, rows, res, d, pts, x, y)
            &&& lp.x == x * res
            &&& 0 <= lp.x <= 0x400_0000_0000
            &&& lp.y == y * res
            &&& 0 <= lp.y <= 0x400_0000_0000
            &&& (lp.z is Some ==> best_cand(hm, sm, segments, rows, res, d, pts, x, y)
                == Option::Some(lp.z->0 as int))
            &&& (lp.z is Some ==> lo <= lp.z->0 <= 1000 * crate::tool::RADIUS_LIMIT)
        }),
{
    let layer = layer_of(hm, sm, segments, rows, res, d, pts, first, k);
    let x = first + ci * k;
    let y = first + rj;
    assert(layer.len() == layer_cols(segments, first, k) as nat);
    assert(first >= segments ==> layer_cols(segments, first, k) == 0);
    assert(first < segments);
    crate::grid::lemma_ceil_div_props(segments - first, k);
    assert(1 <= layer_cols(segments, first, k)) by (nonlinear_arith)
        requires
            first < segments && 1 <= k && layer_cols(segments, first, k) == ceil_div(
                segments - first,
                k,
            ) && (k * (ceil_div(segments - first, k) - 1) < segments - first <= k * ceil_div(
                segments - first,
                k,
            )),
    ;
    assert(ci < layer_cols(segments, first, k));
    assert(0 <= ci * k && first + ci * k < segments) by (nonlinear_arith)
        requires
            0 <= ci && ci < layer_cols(segments, first, k) && 1 <= k && first < segments && (k
                * (layer_cols(segments, first, k) - 1) < segments - first),
    ;
    assert(layer[ci][rj] == layer_point(hm, sm, segments, rows, res, d, pts, x, y));
    lemma_best_cand_props(hm, sm, segments, rows, res, d, pts, x, y, lo);
    assert(0 <= x * res <= 0x1_0000_0000 * 1000 && 0 <= y * res <= 0x1_0000_0000 * 1000)
        by (nonlinear_arith)
        requires
            0 <= x <= 0x1_0000_0000 && 0 <= y <= 0x1_0000_0000 && 1 <= res <= 1000,
    ;
}

/// A layer computed from maps bounded by `[lo, 0]` is safe to apply: every
/// swept height it can write stays in `[lo, 1000 * RADIUS_LIMIT]`, and its
/// stored values are in range.
pub proof fn lemma_layer_of_safe(
    hm: Seq<Seq<Point3>>,
    sm: Seq<Seq<Point3>>,
    segments: int,
    rows: int,
    res: int,
    d: int,
    pts: Seq<Point3>,
    first: int,
    k: int,
    lo: int,
)
    requires
        shape_ok(hm, segments, rows),
        shape_ok(sm, segments, rows),
        map_z_in(hm, lo, 0),
        map_z_in(sm, lo, 0),
        0 <= d,
        -(Z_LIMIT as int) <= lo <= 0,
        1 <= res <= 1000,
        0 <= first,
        1 <= k,
        segments <= 0x1_0000_0000,
        rows <= 0x1_0000_0000,
        forall|pi: int|
            0 <= pi < pts.len() ==> crate::tool::tool_point_ok(
                #[trigger] pts[pi],
                crate::tool::RADIUS_LIMIT as int,
            ),
    ensures
        layer_update_safe(
            layer_of(hm, sm, segments, rows, res, d, pts, first, k),
            pts,
            res,
            segments,
            rows,
            lo,
            1000 * crate::tool::RADIUS_LIMIT,
        ),
        layer_vals_ok(layer_of(hm, sm, segments, rows, res, d, pts, first, k)),
{
    let layer = layer_of(hm, sm, segments, rows, res, d, pts, first, k);
    assert forall|ci: int, rj: int|
        0 <= ci < layer.len() && 0 <= rj < layer[ci].len() implies {
        let lp = #[trigger] layer[ci][rj];
        0 <= lp.x <= 0x400_0000_0000 && 0 <= lp.y <= 0x400_0000_0000 && (lp.z is Some ==> -6
            * Z_LIMIT <= lp.z->0 <= 6 * Z_LIMIT)
    } by {
        lemma_layer_of_point_props(hm, sm, segments, rows, res, d, pts, first, k, lo, ci, rj);
    };
    assert forall|ci: int, rj: int, pi: int|
        #![trigger layer[ci][rj], pts[pi]]
        0 <= ci < layer.len() && 0 <= rj < layer[ci].len() && 0 <= pi < pts.len()
            && layer[ci][rj].z is Some && upd_in_grid(
            layer[ci][rj],
            pts[pi],
            res,
            segments,
            rows,
        ) implies lo <= layer[ci][rj].z->0 + pts[pi].z <= 1000
        * crate::tool::RADIUS_LIMIT by {
        lemma_layer_of_point_props(hm, sm, segments, rows, res, d, pts, first, k, lo, ci, rj);
        let x = first + ci * k;
        let y = first + rj;
        let lp = layer[ci][rj];
        let p = pts[pi];
        lemma_best_cand_props(hm, sm, segments, rows, res, d, pts, x, y, lo);
        lemma_cand_bounds(hm, sm, segments, rows, res, d, x, y, p, lo);
        vstd::arithmetic::div_mod::lemma_hoist_over_denominator(p.x as int, x, res as nat);
        vstd::arithmetic::div_mod::lemma_hoist_over_denominator(p.y as int, y, res as nat);
        assert(floor_div(lp.x + p.x, res) == x + floor_div(p.x as int, res)) by {
            assert(lp.x + p.x == p.x + x * res);
        };
        assert(floor_div(lp.y + p.y, res) == y + floor_div(p.y as int, res)) by {
            assert(lp.y + p.y == p.y + y * res);
        };
        assert(cand_z(hm, sm, segments, rows, res, d, x, y, p) is Some);
    };
}

/// Deep equality of two maps.
pub open spec fn maps_eq(a: Seq<Seq<Point3>>, b: Seq<Seq<Point3>>) -> bool {
    &&& a.len() == b.len()
    &&& forall|i: int| 0 <= i < a.len() ==> #[trigger] a[i] == b[i]
}

/// Whether two maps hold exactly the same points.
pub fn maps_equal(a: &Vec<Vec<Point3>>, b: &Vec<Vec<Point3>>) -> (r: bool)
    ensures
        r == maps_eq(view2(*a), view2(*b)),
{
    if a.len() != b.len() {
        return false;
    }
    let mut i: usize = 0;
    while i < a.len()
        invariant
            0 <= i <= a@.len(),
            a@.len() == b@.len(),
            forall|ii: int| 0 <= ii < i ==> #[trigger] view2(*a)[ii] == view2(*b)[ii],
        decreases a@.len() - i,
    {
        let ca = &a[i];
        let cb = &b[i];
        if ca.len() != cb.len() {
            proof {
                assert(view2(*a)[i as int].len() != view2(*b)[i as int].len());
            }
            return false;
        }
        let mut j: usize = 0;
        while j < ca.len()
            invariant
                0 <= j <= ca@.len(),
                ca@.len() == cb@.len(),
                ca@ == a@[i as int]@,
                cb@ == b@[i as int]@,
                0 <= i < a@.len(),
                a@.len() == b@.len(),
                forall|jj: int| 0 <= jj < j ==> ca@[jj] == cb@[jj],
            decreases ca@.len() - j,
        {
            let pa = ca[j];
            let pb = cb[j];
            if pa.x != pb.x || pa.y != pb.y || pa.z != pb.z {
                proof {
                    assert(view2(*a)[i as int][j as int] != view2(*b)[i as int][j as int]);
                }
                return false;
            }
            j = j + 1;
        }
        proof {
            assert(view2(*a)[i as int] =~= view2(*b)[i as int]);
        }
        i = i + 1;
    }
    true
}

/// An exact copy of a map.
fn copy_map(a: &Vec<Vec<Point3>>) -> (r: Vec<Vec<Point3>>)
    ensures
        view2(r) == view2(*a),
        r@.len() == a@.len(),
        forall|i: int| 0 <= i < a@.len() ==> (#[trigger] r@[i])@ == a@[i]@,
{
    let mut r: Vec<Vec<Point3>> = Vec::new();
    let mut i: usize = 0;
    while i < a.len()
        invariant
            0 <= i <= a@.len(),
            r@.len() == i,
            forall|ii: int| 0 <= ii < i ==> (#[trigger] r@[ii])@ == a@[ii]@,
        decreases a@.len() - i,
    {
        let ca = &a[i];
        let mut col: Vec<Point3> = Vec::new();
        let mut j: usize = 0;
        while j < ca.len()
            invariant
                0 <= j <= ca@.len(),
                ca@ == a@[i as int]@,
                0 <= i < a@.len(),
                col@.len() == j,
                forall|jj: int| 0 <= jj < j ==> #[trigger] col@[jj] == ca@[jj],
            decreases ca@.len() - j,
        {
            col.push(ca[j]);
            j = j + 1;
        }
        proof {
            assert(col@ =~= a@[i as int]@);
        }
        r.push(col);
        i = i + 1;
    }
    proof {
        assert(view2(r) =~= view2(*a));
    }
    r
}

/// The mathematical view of a list of layers.
pub open spec fn view3(m: Vec<Vec<Vec<LayerPoint>>>) -> Seq<Seq<Seq<LayerPoint>>> {
    Seq::new(m@.len() as nat, |i: int| view2(m@[i]))
}

/// The layer loop, unrolled: compute a layer from the current stock,
/// record what it sweeps, and stop as soon as a pass after the first
/// leaves the stock unchanged, or after `fuel` passes.
pub open spec fn run_layers(
    hm: Seq<Seq<Point3>>,
    stock: Seq<Seq<Point3>>,
    pts: Seq<Point3>,
    res: int,
    segments: int,
    rows: int,
    first: int,
    k: int,
    d: int,
    fuel: nat,
    started: bool,
) -> (Seq<Seq<Seq<LayerPoint>>>, Seq<Seq<Point3>>)
    decreases fuel,
{
    if fuel == 0 {
        (Seq::empty(), stock)
    } else {
        let layer = layer_of(hm, stock, segments, rows, res, d, pts, first, k);
        let current = stock_after_layer(stock, layer, pts, res, segments, rows);
        if started && maps_eq(current, stock) {
            (Seq::empty(), stock)
        } else {
            let rec = run_layers(
                hm,
                current,
                pts,
                res,
                segments,
                rows,
                first,
                k,
                d,
                (fuel - 1) as nat,
                true,
            );
            (seq![layer] + rec.0, rec.1)
        }
    }
}

/// The rest-milling loop: peel layers off the stock until a pass after
/// the first changes nothing, or the iteration cap is reached. Returns
/// the layers in cutting order and the final stock. The number of layers
/// never exceeds the cap.
pub fn generate_layers(
    hm: &Vec<Vec<Point3>>,
    rest: Vec<Vec<Point3>>,
    tool: &crate::tool::Tool,
    res: i64,
    d: i64,
    segments: usize,
    rows: usize,
    first: usize,
    k: usize,
    cap: u64,
) -> (r: (Vec<Vec<Vec<LayerPoint>>>, Vec<Vec<Point3>>))
    requires
        shape_ok(view2(*hm), segments as int, rows as int),
        shape_ok(view2(rest), segments as int, rows as int),
        map_z_in(view2(*hm), -Z_LIMIT as int, 0),
        map_z_in(view2(rest), -Z_LIMIT as int, 0),
        crate::grid::valid_resolution(res),
        0 <= d <= 4 * Z_LIMIT,
        segments <= 0x1_0000_0000,
        rows <= 0x1_0000_0000,
        first <= 1_000_000,
        1 <= k <= 1_000_000,
        crate::tool::tool_ok(*tool),
    ensures
        ({
            let spec_r = run_layers(
                view2(*hm),
                view2(rest),
                tool.points@,
                res as int,
                segments as int,
                rows as int,
                first as int,
                k as int,
                d as int,
                cap as nat,
                false,
            );
            &&& view3(r.0) == spec_r.0
            &&& view2(r.1) == spec_r.1
            &&& r.0@.len() <= cap
            &&& shape_ok(view2(r.1), segments as int, rows as int)
            &&& map_z_in(view2(r.1), -Z_LIMIT as int, 0)
        }),
{
    let ghost hmv = view2(*hm);
    let ghost origv = view2(rest);
    let ghost pts = tool.points@;
    let mut layers: Vec<Vec<Vec<LayerPoint>>> = Vec::new();
    let mut processed = rest;
    let mut c: u64 = 0;
    while c < cap
        invariant_except_break
            0 <= c <= cap,
            c == layers@.len(),
            hmv == view2(*hm),
            pts == tool.points@,
            shape_ok(hmv, segments as int, rows as int),
            shape_ok(view2(processed), segments as int, rows as int),
            map_z_in(hmv, -Z_LIMIT as int, 0),
            map_z_in(view2(processed), -Z_LIMIT as int, 0),
            crate::grid::valid_resolution(res),
            0 <= d <= 4 * Z_LIMIT,
            segments <= 0x1_0000_0000,
            rows <= 0x1_0000_0000,
            first <= 1_000_000,
            1 <= k <= 1_000_000,
            crate::tool::tool_ok(*tool),
            run_layers(
                hmv,
                origv,
                pts,
                res as int,
                segments as int,
                rows as int,
                first as int,
                k as int,
                d as int,
                cap as nat,
                false,
            ) == {
                let rec = run_layers(
                    hmv,
                    view2(processed),
                    pts,
                    res as int,
                    segments as int,
                    rows as int,
                    first as int,
                    k as int,
                    d as int,
                    (cap - c) as nat,
                    c > 0,
                );
                (view3(layers) + rec.0, rec.1)
            },
        ensures
            c == layers@.len(),
            c <= cap,
            shape_ok(view2(processed), segments as int, rows as int),
            map_z_in(view2(processed), -Z_LIMIT as int, 0),
            run_layers(
                hmv,
                origv,
                pts,
                res as int,
                segments as int,
                rows as int,
                first as int,
                k as int,
                d as int,
                cap as nat,
                false,
            ) == (view3(layers), view2(processed)),
        decreases cap - c,
    {
        let ghost before = view2(processed);
        let mut current = copy_map(&processed);
        let layer = compute_layer(hm, &processed, segments, rows, res, d, tool, first, k);
        proof {
            lemma_layer_of_safe(
                hmv,
                before,
                segments as int,
                rows as int,
                res as int,
                d as int,
                pts,
                first as int,
                k as int,
                -Z_LIMIT as int,
            );
        }
        apply_layer(&mut current, &layer, tool, res, segments, rows);
        proof {
            lemma_layer_frame(
                before,
                view2(layer),
                pts,
                res as int,
                segments as int,
                rows as int,
                -Z_LIMIT as int,
                1000 * crate::tool::RADIUS_LIMIT as int,
            );
        }
        let mut stop = false;
        if layers.len() > 0 {
            stop = maps_equal(&current, &processed);
        }
        if stop {
            proof {
                let rec = run_layers(
                    hmv,
                    view2(processed),
                    pts,
                    res as int,
                    segments as int,
                    rows as int,
                    first as int,
                    k as int,
                    d as int,
                    (cap - c) as nat,
                    c > 0,
                );
                assert(maps_eq(view2(current), view2(processed)));
                assert(rec == (Seq::<Seq<Seq<LayerPoint>>>::empty(), view2(processed)));
                assert(view3(layers) + Seq::<Seq<Seq<LayerPoint>>>::empty() =~= view3(layers));
            }
            break;
        }
        proof {
            let rec = run_layers(
                hmv,
                view2(processed),
                pts,
                res as int,
                segments as int,
                rows as int,
                first as int,
                k as int,
                d as int,
                (cap - c) as nat,
                c > 0,
            );
            let rec2 = run_layers(
                hmv,
                view2(current),
                pts,
                res as int,
                segments as int,
                rows as int,
                first as int,
                k as int,
                d as int,
                (cap - c - 1) as nat,
                true,
            );
            assert(!(c > 0 && maps_eq(view2(current), view2(processed))));
            assert(rec == (seq![view2(layer)] + rec2.0, rec2.1));
        }
        layers.push(layer);
        processed = current;
        c = c + 1;
        proof {
            assert(view3(layers) =~~= view3(layers).subrange(0, c - 1 as int).push(
                view2(layers@[c - 1 as int]),
            ));
            assert(view3(layers).drop_last() =~~= Seq::new(
                (c - 1) as nat,
                |i: int| view2(layers@[i]),
            ));
        }
    }
    proof {
        assert(view3(layers).len() == layers@.len());
    }
    (layers, processed)
}

/// The stock map never rises: whatever layer is applied to it, every
/// cell of the updated stock is at or below where it was.
pub proof fn lemma_stock_monotonic(
    sm: Seq<Seq<Point3>>,
    layer: Seq<Seq<LayerPoint>>,
    pts: Seq<Point3>,
    res: int,
    segments: int,
    rows: int,
)
    requires
        shape_ok(sm, segments, rows),
        1 <= res,
        map_z_in(sm, -Z_LIMIT as int, Z_LIMIT as int),
        layer_update_safe(layer, pts, res, segments, rows, -0x4000_0000_0000_0000, 0x4000_0000_0000_0000),
    ensures
        forall|i: int, j: int|
            0 <= i < segments && 0 <= j < rows ==> (#[trigger] stock_after_layer(
                sm,
                layer,
                pts,
                res,
                segments,
                rows,
            )[i][j]).z <= sm[i][j].z,
{
    lemma_layer_frame(
        sm,
        layer,
        pts,
        res,
        segments,
        rows,
        -0x4000_0000_0000_0000,
        0x4000_0000_0000_0000,
    );
}

/// What a pass can cut: every height a layer carries lies between the
/// stock floor and the deepest rise of the cutter body; with a flat
/// cutter (every offset at z = 0, as an endmill's) no height is above
/// the stock top.
pub proof fn lemma_layer_z_bounds(
    hm: Seq<Seq<Point3>>,
    sm: Seq<Seq<Point3>>,
    segments: int,
    rows: int,
    res: int,
    d: int,
    pts: Seq<Point3>,
    first: int,
    k: int,
    lo: int,
    ci: int,
    rj: int,
)
    requires
        shape_ok(hm, segments, rows),
        shape_ok(sm, segments, rows),
        map_z_in(hm, lo, 0),
        map_z_in(sm, lo, 0),
        0 <= d,
        -(Z_LIMIT as int) <= lo <= 0,
        1 <= res <= 1000,
        0 <= first,
        1 <= k,
        segments <= 0x1_0000_0000,
        rows <= 0x1_0000_0000,
        forall|pi: int|
            0 <= pi < pts.len() ==> crate::tool::tool_point_ok(
                #[trigger] pts[pi],
                crate::tool::RADIUS_LIMIT as int,
            ),
        0 <= ci < layer_of(hm, sm, segments, rows, res, d, pts, first, k).len(),
        0 <= rj < layer_of(hm, sm, segments, rows, res, d, pts, first, k)[ci].len(),
        layer_of(hm, sm, segments, rows, res, d, pts, first, k)[ci][rj].z is Some,
    ensures
        lo <= layer_of(hm, sm, segments, rows, res, d, pts, first, k)[ci][rj].z->0 <= 1000
            * crate::tool::RADIUS_LIMIT,
        (forall|pi: int| 0 <= pi < pts.len() ==> (#[trigger] pts[pi]).z == 0) ==> layer_of(
            hm,
            sm,
            segments,
            rows,
            res,
            d,
            pts,
            first,
            k,
        )[ci][rj].z->0 <= 0,
{
    lemma_layer_of_point_props(hm, sm, segments, rows, res, d, pts, first, k, lo, ci, rj);
    let x = first + ci * k;
    let y = first + rj;
    let lp = layer_of(hm, sm, segments, rows, res, d, pts, first, k)[ci][rj];
    if forall|pi: int| 0 <= pi < pts.len() ==> (#[trigger] pts[pi]).z == 0 {
        lemma_best_flat_le(hm, sm, segments, rows, res, d, pts, x, y, lo);
    }
}

/// With a flat cutter every candidate is at or below the stock top.
proof fn lemma_best_flat_le(
    hm: Seq<Seq<Point3>>,
    sm: Seq<Seq<Point3>>,
    segments: int,
    rows: int,
    res: int,
    d: int,
    pts: Seq<Point3>,
    x: int,
    y: int,
    lo: int,
)
    requires
        shape_ok(hm, segments, rows),
        shape_ok(sm, segments, rows),
        map_z_in(hm, lo, 0),
        map_z_in(sm, lo, 0),
        0 <= d,
        lo <= 0,
        forall|pi: int| 0 <= pi < pts.len() ==> (#[trigger] pts[pi]).z == 0,
    ensures
        best_cand(hm, sm, segments, rows, res, d, pts, x, y) matches Option::Some(m) ==> m <= 0,
    decreases pts.len(),
{
    if pts.len() > 0 {
        let rest = pts.drop_last();
        lemma_best_flat_le(hm, sm, segments, rows, res, d, rest, x, y, lo);
        let p = pts.last();
        assert(p == pts[pts.len() - 1]);
        let c = cand_z(hm, sm, segments, rows, res, d, x, y, p);
        if c is Some {
            let xo = x + crate::grid::floor_div(p.x as int, res);
            let yo = y + crate::grid::floor_div(p.y as int, res);
            assert(lo <= sm[xo][yo].z <= 0 && lo <= hm[xo][yo].z <= 0);
        }
    }
}

/// Every layer the loop produces has in-range stored values, and the
/// final stock keeps the maps' shape and height bounds.
pub proof fn lemma_run_layers_wf(
    hm: Seq<Seq<Point3>>,
    stock: Seq<Seq<Point3>>,
    pts: Seq<Point3>,
    res: int,
    segments: int,
    rows: int,
    first: int,
    k: int,
    d: int,
    fuel: nat,
    started: bool,
)
    requires
        shape_ok(hm, segments, rows),
        shape_ok(stock, segments, rows),
        map_z_in(hm, -Z_LIMIT as int, 0),
        map_z_in(stock, -Z_LIMIT as int, 0),
        1 <= res <= 1000,
        0 <= d,
        0 <= first,
        1 <= k,
        segments <= 0x1_0000_0000,
        rows <= 0x1_0000_0000,
        forall|pi: int|
            0 <= pi < pts.len() ==> crate::tool::tool_point_ok(
                #[trigger] pts[pi],
                crate::tool::RADIUS_LIMIT as int,
            ),
    ensures
        ({
            let run = run_layers(hm, stock, pts, res, segments, rows, first, k, d, fuel, started);
            &&& forall|li: int| 0 <= li < run.0.len() ==> layer_vals_ok(#[trigger] run.0[li])
            &&& shape_ok(run.1, segments, rows)
            &&& map_z_in(run.1, -Z_LIMIT as int, 0)
            &&& forall|i: int, j: int|
                0 <= i < segments && 0 <= j < rows ==> (#[trigger] run.1[i][j]).x == stock[i][j].x
                    && run.1[i][j].y == stock[i][j].y
        }),
    decreases fuel,
{
    if fuel > 0 {
        let layer = layer_of(hm, stock, segments, rows, res, d, pts, first, k);
        let current = stock_after_layer(stock, layer, pts, res, segments, rows);
        lemma_layer_of_safe(
            hm,
            stock,
            segments,
            rows,
            res,
            d,
            pts,
            first,
            k,
            -Z_LIMIT as int,
        );
        lemma_layer_frame(
            stock,
            layer,
            pts,
            res,
            segments,
            rows,
            -Z_LIMIT as int,
            1000 * crate::tool::RADIUS_LIMIT as int,
        );
        if started && maps_eq(current, stock) {
        } else {
            lemma_run_layers_wf(
                hm,
                current,
                pts,
                res,
                segments,
                rows,
                first,
                k,
                d,
                (fuel - 1) as nat,
                true,
            );
            let run = run_layers(hm, stock, pts, res, segments, rows, first, k, d, fuel, started);
            let rec = run_layers(
                hm,
                current,
                pts,
                res,
                segments,
                rows,
                first,
                k,
                d,
                (fuel - 1) as nat,
                true,
            );
            assert forall|li: int| 0 <= li < run.0.len() implies layer_vals_ok(
                #[trigger] run.0[li],
            ) by {
                if li == 0 {
                    assert(run.0[li] == layer);
                } else {
                    assert(run.0[li] == rec.0[li - 1]);
                }
            };
        }
    }
}

} // verus!