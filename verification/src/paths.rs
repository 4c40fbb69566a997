//! Path planning over a layer: gather the cut points of each column into
//! segments (maximal vertical runs), group segments that the cutter can
//! reach without retracting into islands, and order islands and segments
//! greedily by distance so the cutter travels little.

use crate::geom::Point3;
use crate::layers::LayerPoint;
use vstd::prelude::*;

verus! {

/// The segments of one layer column: maximal runs of consecutive
/// non-sentinel samples, in row order, each point carried as its cutting
/// position.
pub open spec fn seg_split(col: Seq<LayerPoint>) -> Seq<Seq<Point3>>
    decreases col.len(),
{
    if col.len() == 0 {
        Seq::empty()
    } else {
        let rest = seg_split(col.drop_last());
        let lp = col.last();
        match lp.z {
            Option::None => rest,
            Option::Some(z) => {
                let pt = Point3 { x: lp.x, y: lp.y, z };
                if col.len() >= 2 && col[col.len() - 2].z is Some {
                    rest.update(rest.len() - 1, rest.last().push(pt))
                } else {
                    rest.push(seq![pt])
                }
            },
        }
    }
}

/// All segments of a layer, columns in order.
pub open spec fn segs_of_layer(layer: Seq<Seq<LayerPoint>>) -> Seq<Seq<Point3>>
    decreases layer.len(),
{
    if layer.len() == 0 {
        Seq::empty()
    } else {
        segs_of_layer(layer.drop_last()) + seg_split(layer.last())
    }
}

/// In a split column, every run is non-empty, and a column that ends on a
/// cut sample has at least one run.
pub proof fn lemma_seg_split_nonempty(col: Seq<LayerPoint>)
    ensures
        forall|i: int| 0 <= i < seg_split(col).len() ==> (#[trigger] seg_split(col)[i]).len() > 0,
        col.len() > 0 && col.last().z is Some ==> seg_split(col).len() > 0,
    decreases col.len(),
{
    if col.len() > 0 {
        lemma_seg_split_nonempty(col.drop_last());
        let rest = seg_split(col.drop_last());
        let lp = col.last();
        if lp.z is Some {
            if col.len() >= 2 && col[col.len() - 2].z is Some {
                assert(col.drop_last().last() == col[col.len() - 2]);
                assert(rest.len() > 0);
            }
        }
    }
}

/// Every segment of a layer is non-empty.
pub proof fn lemma_segs_nonempty(layer: Seq<Seq<LayerPoint>>)
    ensures
        forall|i: int|
            0 <= i < segs_of_layer(layer).len() ==> (#[trigger] segs_of_layer(layer)[i]).len() > 0,
    decreases layer.len(),
{
    if layer.len() > 0 {
        lemma_segs_nonempty(layer.drop_last());
        lemma_seg_split_nonempty(layer.last());
        let rest = segs_of_layer(layer.drop_last());
        let tail = seg_split(layer.last());
        assert forall|i: int|
            0 <= i < segs_of_layer(layer).len() implies (#[trigger] segs_of_layer(layer)[i]).len()
            > 0 by {
            if i < rest.len() {
                assert(segs_of_layer(layer)[i] == rest[i]);
            } else {
                assert(segs_of_layer(layer)[i] == tail[i - rest.len()]);
            }
        };
    }
}

/// Split one column into its segments.
fn split_column(col: &Vec<LayerPoint>) -> (segs: Vec<Vec<Point3>>)
    ensures
        segs@.len() == seg_split(col@).len(),
        forall|i: int| 0 <= i < segs@.len() ==> (#[trigger] segs@[i])@ == seg_split(col@)[i],
{
    let mut segs: Vec<Vec<Point3>> = Vec::new();
    let mut j: usize = 0;
    let mut open = false;
    while j < col.len()
        invariant
            0 <= j <= col@.len(),
            segs@.len() == seg_split(col@.take(j as int)).len(),
            forall|i: int|
                0 <= i < segs@.len() ==> (#[trigger] segs@[i])@ == seg_split(col@.take(j as int))[i],
            open == (j > 0 && col@[j - 1].z is Some),
            open ==> segs@.len() > 0,
        decreases col@.len() - j,
    {
        let lp = col[j];
        proof {
            assert(col@.take(j + 1).drop_last() =~= col@.take(j as int));
            assert(col@.take(j + 1).last() == col@[j as int]);
            if j > 0 {
                assert(col@.take(j + 1)[j - 1] == col@[j - 1]);
            }
        }
        match lp.z {
            Option::None => {
                open = false;
            },
            Option::Some(z) => {
                let pt = Point3 { x: lp.x, y: lp.y, z };
                if open {
                    let li = segs.len() - 1;
                    let lastseg = &mut segs[li];
                    lastseg.push(pt);
                    proof {
                        let sp = seg_split(col@.take(j + 1));
                        let so = seg_split(col@.take(j as int));
                        assert(sp == so.update(so.len() - 1, so.last().push(pt)));
                        assert(segs@.len() == sp.len());
                        assert forall|i: int| 0 <= i < segs@.len() implies (#[trigger] segs@[i])@
                            == sp[i] by {
                            if i == li as int {
                                assert(segs@[i]@ == so.last().push(pt));
                            }
                        };
                    }
                } else {
                    let mut ns: Vec<Point3> = Vec::new();
                    ns.push(pt);
                    segs.push(ns);
                    proof {
                        assert(ns@ =~= seq![pt]);
                    }
                }
                open = true;
            },
        }
        j = j + 1;
    }
    proof {
        assert(col@.take(col@.len() as int) =~= col@);
    }
    segs
}

/// All segments of a layer, in column order.
pub fn layer_segments(layer: &Vec<Vec<LayerPoint>>) -> (segs: Vec<Vec<Point3>>)
    ensures
        segs@.len() == segs_of_layer(crate::layers::view2(*layer)).len(),
        forall|i: int|
            0 <= i < segs@.len() ==> (#[trigger] segs@[i])@ == segs_of_layer(
                crate::layers::view2(*layer),
            )[i],
{
    let ghost lv = crate::layers::view2(*layer);
    let mut segs: Vec<Vec<Point3>> = Vec::new();
    let mut c: usize = 0;
    while c < layer.len()
        invariant
            0 <= c <= layer@.len(),
            lv == crate::layers::view2(*layer),
            segs@.len() == segs_of_layer(lv.take(c as int)).len(),
            forall|i: int|
                0 <= i < segs@.len() ==> (#[trigger] segs@[i])@ == segs_of_layer(
                    lv.take(c as int),
                )[i],
        decreases layer@.len() - c,
    {
        let col = &layer[c];
        let mut cs = split_column(col);
        proof {
            assert(lv.take(c + 1).drop_last() =~= lv.take(c as int));
            assert(lv.take(c + 1).last() == lv[c as int]);
            assert(col@ == lv[c as int]);
        }
        let ghost base = segs@.len();
        let ghost orig = cs@.len();
        let ghost csspec = seg_split(lv[c as int]);
        while cs.len() > 0
            invariant
                cs@.len() <= orig,
                orig == csspec.len(),
                segs@.len() == base + (orig - cs@.len()),
                forall|i: int|
                    0 <= i < base ==> (#[trigger] segs@[i])@ == segs_of_layer(lv.take(c as int))[i],
                base == segs_of_layer(lv.take(c as int)).len(),
                forall|i: int|
                    base <= i < segs@.len() ==> (#[trigger] segs@[i])@ == csspec[i - base],
                forall|i: int|
                    0 <= i < cs@.len() ==> (#[trigger] cs@[i])@ == csspec[i + (orig - cs@.len())],
            decreases cs@.len(),
        {
            let one = cs.remove(0);
            segs.push(one);
        }
        c = c + 1;
    }
    proof {
        assert(lv.take(lv.len() as int) =~= lv);
    }
    segs
}

/// A kept element of a filtered index sequence is one of its indices.
proof fn lemma_filter_elt_from(s: Seq<int>, p: spec_fn(int) -> bool, u: int)
    requires
        0 <= u < s.filter(p).len(),
    ensures
        s.contains(s.filter(p)[u]),
    decreases s.len(),
{
    reveal(Seq::filter);
    if s.len() > 0 {
        let rest = s.drop_last();
        if p(s.last()) {
            if u < rest.filter(p).len() {
                lemma_filter_elt_from(rest, p, u);
                let w = choose|i: int| 0 <= i < rest.len() && rest[i] == rest.filter(p)[u];
                assert(s[w] == rest[w]);
            } else {
                assert(s.filter(p)[u] == s.last());
            }
        } else {
            lemma_filter_elt_from(rest, p, u);
            let w = choose|i: int| 0 <= i < rest.len() && rest[i] == rest.filter(p)[u];
            assert(s[w] == rest[w]);
        }
    }
}

/// Squared planar distance between two points, exact in integers.
pub open spec fn d2(p: Point3, q: Point3) -> int {
    (p.x - q.x) * (p.x - q.x) + (p.y - q.y) * (p.y - q.y)
}

/// Two vertical runs are neighbors when they lie within the flood-fill
/// radius in both axes (a shared boundary counts).
pub open spec fn segs_adjacent(a: Seq<Point3>, b: Seq<Point3>, rad: int) -> bool {
    &&& -rad <= a[0].x - b[0].x <= rad
    &&& b[0].y - a.last().y <= rad
    &&& a[0].y - b.last().y <= rad
}

/// Direct-neighbor matrix of the segments (reflexive).
pub open spec fn adj_matrix(segs: Seq<Seq<Point3>>, rad: int) -> Seq<Seq<bool>> {
    Seq::new(
        segs.len(),
        |i: int|
            Seq::new(segs.len(), |j: int| i == j || segs_adjacent(segs[i], segs[j], rad)),
    )
}

/// One closure round through pivot `k`.
pub open spec fn fw_step(r: Seq<Seq<bool>>, k: int) -> Seq<Seq<bool>> {
    Seq::new(
        r.len(),
        |i: int| Seq::new(r.len(), |j: int| r[i][j] || (r[i][k] && r[k][j])),
    )
}

/// Reachability closure after the first `k` pivots.
pub open spec fn fw(r: Seq<Seq<bool>>, k: nat) -> Seq<Seq<bool>>
    decreases k,
{
    if k == 0 {
        r
    } else {
        fw_step(fw(r, (k - 1) as nat), k - 1)
    }
}

/// Which segments can be reached from which without retracting.
pub open spec fn reach_of(segs: Seq<Seq<Point3>>, rad: int) -> Seq<Seq<bool>> {
    fw(adj_matrix(segs, rad), segs.len())
}

/// Segment `i` opens a new island: no earlier segment reaches it.
pub open spec fn is_root(reach: Seq<Seq<bool>>, i: int) -> bool {
    forall|j: int| 0 <= j < i ==> !(#[trigger] reach[i][j])
}

/// The ascending indices among the first `m` that `r` reaches.
pub open spec fn idx_prefix(reach: Seq<Seq<bool>>, r: int, m: nat) -> Seq<int> {
    Seq::new(m, |j: int| j).filter(|j: int| reach[r][j])
}

/// The ascending indices reachable from `i`.
pub open spec fn island_idx(reach: Seq<Seq<bool>>, i: int) -> Seq<int> {
    idx_prefix(reach, i, reach.len())
}

/// The islands among the first `n` segments, in order of their roots.
pub open spec fn islands_rec(reach: Seq<Seq<bool>>, n: nat) -> Seq<Seq<int>>
    decreases n,
{
    if n == 0 {
        Seq::empty()
    } else {
        let rest = islands_rec(reach, (n - 1) as nat);
        if is_root(reach, n - 1) {
            rest.push(island_idx(reach, n - 1))
        } else {
            rest
        }
    }
}

/// The islands of a segment list: each a group of segments, in index
/// order, that the cutter can walk without retracting; groups ordered by
/// their first segment.
pub open spec fn islands_of(segs: Seq<Seq<Point3>>, rad: int) -> Seq<Seq<Seq<Point3>>> {
    islands_rec(reach_of(segs, rad), segs.len()).map_values(
        |isl: Seq<int>| isl.map_values(|j: int| segs[j]),
    )
}

fn seg_adjacent_exec(a: &Vec<Point3>, b: &Vec<Point3>, rad: i64) -> (r: bool)
    requires
        a@.len() > 0,
        b@.len() > 0,
        forall|i: int| 0 <= i < a@.len() ==> crate::codec::point_ok(#[trigger] a@[i]),
        forall|i: int| 0 <= i < b@.len() ==> crate::codec::point_ok(#[trigger] b@[i]),
        0 <= rad <= crate::codec::CODE_LIMIT,
    ensures
        r == segs_adjacent(a@, b@, rad as int),
{
    let af = a[0];
    let al = a[a.len() - 1];
    let bf = b[0];
    let bl = b[b.len() - 1];
    proof {
        assert(crate::codec::point_ok(a@[0]) && crate::codec::point_ok(a@[a@.len() - 1]));
        assert(crate::codec::point_ok(b@[0]) && crate::codec::point_ok(b@[b@.len() - 1]));
    }
    -rad <= af.x - bf.x && af.x - bf.x <= rad && bf.y - al.y <= rad && af.y - bl.y <= rad
}

/// Group a layer's segments into islands by flood-fill reachability with
/// radius `rad` (micrometers). Returns the islands in root order, each
/// island's segments in index order.
pub fn get_islands(segs: &Vec<Vec<Point3>>, rad: i64) -> (islands: Vec<Vec<Vec<Point3>>>)
    requires
        forall|i: int| 0 <= i < segs@.len() ==> (#[trigger] segs@[i])@.len() > 0,
        forall|i: int, j: int|
            0 <= i < segs@.len() && 0 <= j < segs@[i]@.len() ==> crate::codec::point_ok(
                #[trigger] segs@[i]@[j],
            ),
        0 <= rad <= crate::codec::CODE_LIMIT,
    ensures
        ({
            let sview = Seq::new(segs@.len() as nat, |i: int| segs@[i]@);
            let spec = islands_of(sview, rad as int);
            &&& islands@.len() == spec.len()
            &&& forall|t: int, u: int|
                0 <= t < spec.len() && 0 <= u < spec[t].len() ==> (#[trigger] islands@[t]@[u])@
                    == spec[t][u]
            &&& forall|t: int| 0 <= t < spec.len() ==> (#[trigger] islands@[t])@.len()
                == spec[t].len()
        }),
{
    let ghost sview = Seq::new(segs@.len() as nat, |i: int| segs@[i]@);
    let n = segs.len();
    // direct neighbors
    let mut adj: Vec<Vec<bool>> = Vec::new();
    let mut i: usize = 0;
    while i < n
        invariant
            0 <= i <= n,
            n == segs@.len(),
            sview == Seq::new(segs@.len() as nat, |ii: int| segs@[ii]@),
            forall|ii: int| 0 <= ii < n ==> (#[trigger] segs@[ii])@.len() > 0,
            forall|ii: int, jj: int|
                0 <= ii < n && 0 <= jj < segs@[ii]@.len() ==> crate::codec::point_ok(
                    #[trigger] segs@[ii]@[jj],
                ),
            0 <= rad <= crate::codec::CODE_LIMIT,
            adj@.len() == i,
            forall|ii: int| 0 <= ii < i ==> (#[trigger] adj@[ii])@.len() == n,
            forall|ii: int, jj: int|
                0 <= ii < i && 0 <= jj < n ==> (#[trigger] adj@[ii]@[jj]) == adj_matrix(
                    sview,
                    rad as int,
                )[ii][jj],
        decreases n - i,
    {
        let mut row: Vec<bool> = Vec::new();
        let mut j: usize = 0;
        while j < n
            invariant
                0 <= j <= n,
                0 <= i < n,
                n == segs@.len(),
                sview == Seq::new(segs@.len() as nat, |ii: int| segs@[ii]@),
                forall|ii: int| 0 <= ii < n ==> (#[trigger] segs@[ii])@.len() > 0,
                forall|ii: int, jj: int|
                    0 <= ii < n && 0 <= jj < segs@[ii]@.len() ==> crate::codec::point_ok(
                        #[trigger] segs@[ii]@[jj],
                    ),
                0 <= rad <= crate::codec::CODE_LIMIT,
                row@.len() == j,
                forall|jj: int|
                    0 <= jj < j ==> (#[trigger] row@[jj]) == adj_matrix(sview, rad as int)[i as int][jj],
            decreases n - j,
        {
            let v = if i == j {
                true
            } else {
                seg_adjacent_exec(&segs[i], &segs[j], rad)
            };
            row.push(v);
            j = j + 1;
        }
        adj.push(row);
        i = i + 1;
    }
    // transitive closure
    let mut k: usize = 0;
    while k < n
        invariant
            0 <= k <= n,
            n == segs@.len(),
            sview == Seq::new(segs@.len() as nat, |ii: int| segs@[ii]@),
            adj@.len() == n,
            forall|ii: int| 0 <= ii < n ==> (#[trigger] adj@[ii])@.len() == n,
            forall|ii: int, jj: int|
                0 <= ii < n && 0 <= jj < n ==> (#[trigger] adj@[ii]@[jj]) == fw(
                    adj_matrix(sview, rad as int),
                    k as nat,
                )[ii][jj],
            fw(adj_matrix(sview, rad as int), k as nat).len() == n,
            forall|ii: int|
                0 <= ii < n ==> (#[trigger] fw(adj_matrix(sview, rad as int), k as nat)[ii]).len()
                    == n,
        decreases n - k,
    {
        let ghost prev = fw(adj_matrix(sview, rad as int), k as nat);
        let mut nadj: Vec<Vec<bool>> = Vec::new();
        let mut i2: usize = 0;
        while i2 < n
            invariant
                0 <= i2 <= n,
                0 <= k < n,
                n == segs@.len(),
                adj@.len() == n,
                forall|ii: int| 0 <= ii < n ==> (#[trigger] adj@[ii])@.len() == n,
                forall|ii: int, jj: int|
                    0 <= ii < n && 0 <= jj < n ==> (#[trigger] adj@[ii]@[jj]) == prev[ii][jj],
                prev.len() == n,
                forall|ii: int| 0 <= ii < n ==> (#[trigger] prev[ii]).len() == n,
                nadj@.len() == i2,
                forall|ii: int| 0 <= ii < i2 ==> (#[trigger] nadj@[ii])@.len() == n,
                forall|ii: int, jj: int|
                    0 <= ii < i2 && 0 <= jj < n ==> (#[trigger] nadj@[ii]@[jj]) == fw_step(
                        prev,
                        k as int,
                    )[ii][jj],
            decreases n - i2,
        {
            let mut row: Vec<bool> = Vec::new();
            let mut j2: usize = 0;
            while j2 < n
                invariant
                    0 <= j2 <= n,
                    0 <= i2 < n,
                    0 <= k < n,
                    n == segs@.len(),
                    adj@.len() == n,
                    forall|ii: int| 0 <= ii < n ==> (#[trigger] adj@[ii])@.len() == n,
                    forall|ii: int, jj: int|
                        0 <= ii < n && 0 <= jj < n ==> (#[trigger] adj@[ii]@[jj]) == prev[ii][jj],
                    prev.len() == n,
                    forall|ii: int| 0 <= ii < n ==> (#[trigger] prev[ii]).len() == n,
                    row@.len() == j2,
                    forall|jj: int|
                        0 <= jj < j2 ==> (#[trigger] row@[jj]) == fw_step(prev, k as int)[i2 as int][jj],
                decreases n - j2,
            {
                let v = adj[i2][j2] || (adj[i2][k] && adj[k][j2]);
                row.push(v);
                j2 = j2 + 1;
            }
            nadj.push(row);
            i2 = i2 + 1;
        }
        adj = nadj;
        k = k + 1;
    }
    let ghost reach = reach_of(sview, rad as int);
    proof {
        assert(reach == fw(adj_matrix(sview, rad as int), n as nat));
    }
    // group by roots
    let mut islands: Vec<Vec<Vec<Point3>>> = Vec::new();
    let mut r: usize = 0;
    while r < n
        invariant
            0 <= r <= n,
            n == segs@.len(),
            sview == Seq::new(segs@.len() as nat, |ii: int| segs@[ii]@),
            adj@.len() == n,
            forall|ii: int| 0 <= ii < n ==> (#[trigger] adj@[ii])@.len() == n,
            forall|ii: int, jj: int|
                0 <= ii < n && 0 <= jj < n ==> (#[trigger] adj@[ii]@[jj]) == reach[ii][jj],
            reach == reach_of(sview, rad as int),
            reach.len() == n,
            forall|ii: int| 0 <= ii < n ==> (#[trigger] reach[ii]).len() == n,
            islands@.len() == islands_rec(reach, r as nat).len(),
            forall|t: int|
                0 <= t < islands@.len() ==> (#[trigger] islands@[t])@.len() == islands_rec(
                    reach,
                    r as nat,
                )[t].len(),
            forall|t: int, u: int|
                0 <= t < islands@.len() && 0 <= u < islands@[t]@.len() ==> (
                #[trigger] islands@[t]@[u])@ == sview[islands_rec(reach, r as nat)[t][u]],
            forall|t: int, u: int|
                0 <= t < islands@.len() && 0 <= u < (#[trigger] islands@[t])@.len() ==> 0 <= (
                #[trigger] islands_rec(reach, r as nat)[t][u]) < n,
        decreases n - r,
    {
        // root test
        let mut root = true;
        let mut j3: usize = 0;
        while j3 < r
            invariant_except_break
                0 <= j3 <= r,
                r < n,
                adj@.len() == n,
                forall|ii: int| 0 <= ii < n ==> (#[trigger] adj@[ii])@.len() == n,
                forall|ii: int, jj: int|
                    0 <= ii < n && 0 <= jj < n ==> (#[trigger] adj@[ii]@[jj]) == reach[ii][jj],
                root,
                forall|jj: int| 0 <= jj < j3 ==> !(#[trigger] reach[r as int][jj]),
            ensures
                root == (forall|jj: int| 0 <= jj < r ==> !(#[trigger] reach[r as int][jj])),
            decreases r - j3,
        {
            if adj[r][j3] {
                root = false;
                proof {
                    assert(reach[r as int][j3 as int]);
                }
                break;
            }
            j3 = j3 + 1;
        }
        if root {
            let mut isl: Vec<Vec<Point3>> = Vec::new();
            let mut j4: usize = 0;
            while j4 < n
                invariant
                    0 <= j4 <= n,
                    r < n,
                    n == segs@.len(),
                    sview == Seq::new(segs@.len() as nat, |ii: int| segs@[ii]@),
                    adj@.len() == n,
                    forall|ii: int| 0 <= ii < n ==> (#[trigger] adj@[ii])@.len() == n,
                    forall|ii: int, jj: int|
                        0 <= ii < n && 0 <= jj < n ==> (#[trigger] adj@[ii]@[jj]) == reach[ii][jj],
                    reach.len() == n,
                    forall|ii: int| 0 <= ii < n ==> (#[trigger] reach[ii]).len() == n,
                    isl@.len() == idx_prefix(reach, r as int, j4 as nat).len(),
                    forall|u: int|
                        0 <= u < isl@.len() ==> (#[trigger] isl@[u])@ == sview[idx_prefix(
                            reach,
                            r as int,
                            j4 as nat,
                        )[u]],
                    forall|u: int|
                        0 <= u < isl@.len() ==> 0 <= #[trigger] (idx_prefix(
                            reach,
                            r as int,
                            j4 as nat,
                        )[u]) < n,
                decreases n - j4,
            {
                proof {
                    assert(Seq::new((j4 + 1) as nat, |j: int| j).drop_last() =~= Seq::new(
                        j4 as nat,
                        |j: int| j,
                    ));
                    Seq::new(j4 as nat, |j: int| j).lemma_filter_push(
                        j4 as int,
                        |j: int| reach[r as int][j],
                    );
                    assert(Seq::new((j4 + 1) as nat, |j: int| j) =~= Seq::new(
                        j4 as nat,
                        |j: int| j,
                    ).push(j4 as int));
                }
                if adj[r][j4] {
                    let src = &segs[j4];
                    let mut cp: Vec<Point3> = Vec::new();
                    let mut q: usize = 0;
                    while q < src.len()
                        invariant
                            0 <= q <= src@.len(),
                            0 <= j4 < segs@.len(),
                            src@ == segs@[j4 as int]@,
                            cp@.len() == q,
                            forall|u: int| 0 <= u < q ==> #[trigger] cp@[u] == src@[u],
                        decreases src@.len() - q,
                    {
                        cp.push(src[q]);
                        q = q + 1;
                    }
                    proof {
                        assert(cp@ =~= segs@[j4 as int]@);
                    }
                    isl.push(cp);
                }
                j4 = j4 + 1;
            }
            islands.push(isl);
            proof {
                assert(Seq::new(n as nat, |j: int| j).take(n as int) =~= Seq::new(
                    n as nat,
                    |j: int| j,
                ));
                assert(Seq::new(n as nat, |j: int| j) =~= Seq::new(reach.len(), |j: int| j));
                assert(islands_rec(reach, (r + 1) as nat) == islands_rec(reach, r as nat).push(
                    island_idx(reach, r as int),
                ));
            }
        } else {
            proof {
                assert(!is_root(reach, r as int));
                assert(islands_rec(reach, (r + 1) as nat) == islands_rec(reach, r as nat));
            }
        }
        r = r + 1;
    }
    proof {
        let spec = islands_of(sview, rad as int);
        assert(spec.len() == islands_rec(reach, n as nat).len());
        assert forall|t: int, u: int|
            0 <= t < spec.len() && 0 <= u < spec[t].len() implies (#[trigger] islands@[t]@[u])@
            == spec[t][u] by {
            assert(spec[t] == islands_rec(reach, n as nat)[t].map_values(|j: int| sview[j]));
        };
        assert forall|t: int| 0 <= t < spec.len() implies (#[trigger] islands@[t])@.len()
            == spec[t].len() by {
            assert(spec[t] == islands_rec(reach, n as nat)[t].map_values(|j: int| sview[j]));
        };
    }
    islands
}

/// A segment walked from its far end.
pub open spec fn seg_rev(s: Seq<Point3>) -> Seq<Point3> {
    Seq::new(s.len(), |t: int| s[s.len() - 1 - t])
}

/// The squared distance from the cutter to the nearer endpoint.
pub open spec fn seg_key(s: Seq<Point3>, pos: Point3) -> int {
    vstd::math::min(d2(pos, s[0]), d2(pos, s.last()))
}

/// The first index at or after `i` that is unused and has a minimal key;
/// ties fall to the lower index.
pub open spec fn argmin_from(keys: Seq<int>, used: Seq<bool>, i: nat) -> Option<int>
    decreases keys.len() - i,
{
    if i >= keys.len() {
        Option::None
    } else {
        let rest = argmin_from(keys, used, (i + 1) as nat);
        if used[i as int] {
            rest
        } else {
            match rest {
                Option::None => Option::Some(i as int),
                Option::Some(j) => if keys[i as int] <= keys[j] {
                    Option::Some(i as int)
                } else {
                    Option::Some(j)
                },
            }
        }
    }
}

/// Greedy nearest-endpoint ordering of a set of segments: repeatedly take
/// the unused segment whose nearer endpoint is closest to the cutter,
/// walking it backwards when its far end is the nearer one.
pub open spec fn order_segs(
    segs: Seq<Seq<Point3>>,
    used: Seq<bool>,
    pos: Point3,
    fuel: nat,
) -> (Seq<Seq<Point3>>, Point3)
    decreases fuel,
{
    if fuel == 0 {
        (Seq::empty(), pos)
    } else {
        match argmin_from(Seq::new(segs.len(), |i: int| seg_key(segs[i], pos)), used, 0) {
            Option::None => (Seq::empty(), pos),
            Option::Some(i) => {
                let s = if d2(pos, segs[i].last()) < d2(pos, segs[i][0]) {
                    seg_rev(segs[i])
                } else {
                    segs[i]
                };
                let rec = order_segs(segs, used.update(i, true), s.last(), (fuel - 1) as nat);
                (seq![s] + rec.0, rec.1)
            },
        }
    }
}

/// Greedy nearest-neighbor ordering of the islands, keyed by the cutter's
/// position against each island's first point; inside each island the
/// segments are ordered by `order_segs`.
pub open spec fn order_islands(
    islands: Seq<Seq<Seq<Point3>>>,
    used: Seq<bool>,
    pos: Point3,
    fuel: nat,
) -> (Seq<Seq<Seq<Point3>>>, Point3)
    decreases fuel,
{
    if fuel == 0 {
        (Seq::empty(), pos)
    } else {
        match argmin_from(
            Seq::new(islands.len(), |t: int| d2(pos, islands[t][0][0])),
            used,
            0,
        ) {
            Option::None => (Seq::empty(), pos),
            Option::Some(t) => {
                let inner = order_segs(
                    islands[t],
                    Seq::new(islands[t].len(), |u: int| false),
                    pos,
                    islands[t].len(),
                );
                let rec = order_islands(islands, used.update(t, true), inner.1, (fuel - 1) as nat);
                (seq![inner.0] + rec.0, rec.1)
            },
        }
    }
}

pub fn d2_exec(p: &Point3, q: &Point3) -> (r: i128)
    requires
        crate::codec::point_ok(*p),
        crate::codec::point_ok(*q),
    ensures
        r as int == d2(*p, *q),
        0 <= r <= 0x1_0000_0000_0000_0000_0000_0000,
{
    let dx = (p.x - q.x) as i128;
    let dy = (p.y - q.y) as i128;
    proof {
        assert(0 <= dx * dx <= 0x4000_0000_0000_0000_0000_0000 && 0 <= dy * dy
            <= 0x4000_0000_0000_0000_0000_0000) by (nonlinear_arith)
            requires
                -0x1000_0000_0000 <= dx <= 0x1000_0000_0000 && -0x1000_0000_0000 <= dy
                    <= 0x1000_0000_0000,
        ;
    }
    dx * dx + dy * dy
}

fn argmin_exec(keys: &Vec<i128>, used: &Vec<bool>, kspec: Ghost<Seq<int>>) -> (r: Option<usize>)
    requires
        keys@.len() == used@.len(),
        kspec@.len() == keys@.len(),
        forall|i: int| 0 <= i < keys@.len() ==> (#[trigger] keys@[i]) as int == kspec@[i],
    ensures
        ({
            let spec = argmin_from(kspec@, used@, 0);
            match r {
                Option::None => spec is None,
                Option::Some(i) => spec == Option::Some(i as int) && i < keys@.len(),
            }
        }),
{
    let n = keys.len();
    let mut acc: Option<usize> = None;
    let mut i: usize = n;
    while i > 0
        invariant
            0 <= i <= n,
            n == keys@.len(),
            keys@.len() == used@.len(),
            kspec@.len() == keys@.len(),
            forall|k: int| 0 <= k < keys@.len() ==> (#[trigger] keys@[k]) as int == kspec@[k],
            ({
                let spec = argmin_from(kspec@, used@, i as nat);
                match acc {
                    Option::None => spec is None,
                    Option::Some(j) => spec == Option::Some(j as int) && j < n,
                }
            }),
        decreases i,
    {
        i = i - 1;
        if !used[i] {
            match acc {
                Option::None => {
                    acc = Some(i);
                },
                Option::Some(j) => {
                    if keys[i] <= keys[j] {
                        acc = Some(i);
                    }
                },
            }
        }
    }
    acc
}

fn copy_seg(s: &Vec<Point3>, rev: bool) -> (r: Vec<Point3>)
    ensures
        !rev ==> r@ == s@,
        rev ==> r@ == seg_rev(s@),
{
    let mut r: Vec<Point3> = Vec::new();
    let n = s.len();
    let mut i: usize = 0;
    while i < n
        invariant
            0 <= i <= n,
            n == s@.len(),
            r@.len() == i,
            forall|k: int|
                0 <= k < i ==> #[trigger] r@[k] == (if rev {
                    s@[s@.len() - 1 - k]
                } else {
                    s@[k]
                }),
        decreases n - i,
    {
        if rev {
            r.push(s[n - 1 - i]);
        } else {
            r.push(s[i]);
        }
        i = i + 1;
    }
    proof {
        if rev {
            assert(r@ =~= seg_rev(s@));
        } else {
            assert(r@ =~= s@);
        }
    }
    r
}

/// Well-formed islands: every island and segment non-empty, every point
/// within the codec's coordinate range.
pub open spec fn islands_wf(iv: Seq<Seq<Seq<Point3>>>) -> bool {
    forall|t: int, u: int|
        0 <= t < iv.len() && 0 <= u < (#[trigger] iv[t]).len() ==> iv[t].len() > 0 && (
        #[trigger] iv[t][u]).len() > 0 && (forall|q: int|
            0 <= q < iv[t][u].len() ==> crate::codec::point_ok(#[trigger] iv[t][u][q]))
}

/// Order one island's segments greedily from `pos`.
fn order_segs_exec(segs: &Vec<Vec<Point3>>, pos: Point3) -> (r: (Vec<Vec<Point3>>, Point3))
    requires
        forall|u: int| 0 <= u < segs@.len() ==> (#[trigger] segs@[u])@.len() > 0,
        forall|u: int, q: int|
            0 <= u < segs@.len() && 0 <= q < segs@[u]@.len() ==> crate::codec::point_ok(
                #[trigger] segs@[u]@[q],
            ),
        crate::codec::point_ok(pos),
    ensures
        ({
            let sview = Seq::new(segs@.len() as nat, |u: int| segs@[u]@);
            let spec = order_segs(
                sview,
                Seq::new(segs@.len() as nat, |u: int| false),
                pos,
                segs@.len() as nat,
            );
            &&& r.0@.len() == spec.0.len()
            &&& forall|u: int| 0 <= u < r.0@.len() ==> (#[trigger] r.0@[u])@ == spec.0[u]
            &&& r.1 == spec.1
            &&& crate::codec::point_ok(r.1)
        }),
{
    let ghost sview = Seq::new(segs@.len() as nat, |u: int| segs@[u]@);
    let n = segs.len();
    let mut used: Vec<bool> = Vec::new();
    let mut t: usize = 0;
    while t < n
        invariant
            0 <= t <= n,
            used@.len() == t,
            forall|u: int| 0 <= u < t ==> !(#[trigger] used@[u]),
        decreases n - t,
    {
        used.push(false);
        t = t + 1;
    }
    proof {
        assert(used@ =~= Seq::new(segs@.len() as nat, |u: int| false));
    }
    let ghost ospec = order_segs(sview, used@, pos, n as nat);
    let mut out: Vec<Vec<Point3>> = Vec::new();
    let mut cur = pos;
    let mut it: usize = 0;
    while it < n
        invariant_except_break
            0 <= it <= n,
            n == segs@.len(),
            sview == Seq::new(segs@.len() as nat, |u: int| segs@[u]@),
            used@.len() == n,
            forall|u: int| 0 <= u < segs@.len() ==> (#[trigger] segs@[u])@.len() > 0,
            forall|u: int, q: int|
                0 <= u < segs@.len() && 0 <= q < segs@[u]@.len() ==> crate::codec::point_ok(
                    #[trigger] segs@[u]@[q],
                ),
            crate::codec::point_ok(cur),
            ({
                let rec = order_segs(sview, used@, cur, (n - it) as nat);
                &&& ospec.0 == Seq::new(out@.len() as nat, |u: int| out@[u]@) + rec.0
                &&& ospec.1 == rec.1
            }),
        ensures
            ({
                &&& ospec.0 == Seq::new(out@.len() as nat, |u: int| out@[u]@)
                &&& ospec.1 == cur
                &&& crate::codec::point_ok(cur)
            }),
        decreases n - it,
    {
        let mut keys: Vec<i128> = Vec::new();
        let ghost kspec = Seq::new(sview.len(), |u: int| seg_key(sview[u], cur));
        let mut u: usize = 0;
        while u < n
            invariant
                0 <= u <= n,
                n == segs@.len(),
                sview == Seq::new(segs@.len() as nat, |uu: int| segs@[uu]@),
                kspec == Seq::new(sview.len(), |uu: int| seg_key(sview[uu], cur)),
                forall|uu: int| 0 <= uu < segs@.len() ==> (#[trigger] segs@[uu])@.len() > 0,
                forall|uu: int, q: int|
                    0 <= uu < segs@.len() && 0 <= q < segs@[uu]@.len() ==> crate::codec::point_ok(
                        #[trigger] segs@[uu]@[q],
                    ),
                crate::codec::point_ok(cur),
                keys@.len() == u,
                forall|uu: int| 0 <= uu < u ==> (#[trigger] keys@[uu]) as int == kspec[uu],
            decreases n - u,
        {
            let sgref = &segs[u];
            let df = d2_exec(&cur, &sgref[0]);
            let dl = d2_exec(&cur, &sgref[sgref.len() - 1]);
            let k = if df <= dl {
                df
            } else {
                dl
            };
            keys.push(k);
            u = u + 1;
        }
        match argmin_exec(&keys, &used, Ghost(kspec)) {
            Option::None => {
                break;
            },
            Option::Some(i) => {
                proof {
                    assert(argmin_from(kspec, used@, 0) == Option::Some(i as int));
                    assert(i < segs@.len());
                    assert(sview[i as int] == segs@[i as int]@);
                    assert(segs@[i as int]@.len() > 0);
                }
                let sgref = &segs[i];
                let df = d2_exec(&cur, &sgref[0]);
                let dl = d2_exec(&cur, &sgref[sgref.len() - 1]);
                let rev = dl < df;
                let oriented = copy_seg(sgref, rev);
                let last = oriented[oriented.len() - 1];
                proof {
                    let rec = order_segs(sview, used@, cur, (n - it) as nat);
                    assert(sview[i as int] == segs@[i as int]@);
                    if rev {
                        assert(oriented@ == seg_rev(sview[i as int]));
                        assert(seg_rev(sview[i as int]).last() == sview[i as int][0]);
                        assert(crate::codec::point_ok(segs@[i as int]@[0]));
                    } else {
                        assert(oriented@ == sview[i as int]);
                        assert(crate::codec::point_ok(
                            segs@[i as int]@[segs@[i as int]@.len() - 1],
                        ));
                    }
                    assert(crate::codec::point_ok(last));
                }
                out.push(oriented);
                used.set(i, true);
                cur = last;
                it = it + 1;
                proof {
                    assert(ospec.0 =~= Seq::new(out@.len() as nat, |uu: int| out@[uu]@)
                        + order_segs(sview, used@, cur, (n - it) as nat).0);
                }
            },
        }
    }
    (out, cur)
}

/// Order the islands greedily from `pos`, ordering each island's
/// segments as it is entered. Returns the flattened plan: islands in
/// visit order, each as its ordered, oriented segments.
pub fn order_islands_exec(islands: &Vec<Vec<Vec<Point3>>>, pos: Point3) -> (r: (
    Vec<Vec<Vec<Point3>>>,
    Point3,
))
    requires
        islands_wf(Seq::new(islands@.len() as nat, |t: int| Seq::new(islands@[t]@.len() as nat, |u: int| islands@[t]@[u]@))),
        forall|t: int| 0 <= t < islands@.len() ==> (#[trigger] islands@[t])@.len() > 0,
        crate::codec::point_ok(pos),
    ensures
        ({
            let iview = Seq::new(
                islands@.len() as nat,
                |t: int| Seq::new(islands@[t]@.len() as nat, |u: int| islands@[t]@[u]@),
            );
            let spec = order_islands(
                iview,
                Seq::new(islands@.len() as nat, |t: int| false),
                pos,
                islands@.len() as nat,
            );
            &&& r.0@.len() == spec.0.len()
            &&& forall|t: int| 0 <= t < r.0@.len() ==> (#[trigger] r.0@[t])@.len()
                == spec.0[t].len()
            &&& forall|t: int, u: int|
                0 <= t < r.0@.len() && 0 <= u < r.0@[t]@.len() ==> (#[trigger] r.0@[t]@[u])@
                    == spec.0[t][u]
            &&& r.1 == spec.1
        }),
{
    let ghost iview = Seq::new(
        islands@.len() as nat,
        |t: int| Seq::new(islands@[t]@.len() as nat, |u: int| islands@[t]@[u]@),
    );
    let n = islands.len();
    let mut used: Vec<bool> = Vec::new();
    let mut t: usize = 0;
    while t < n
        invariant
            0 <= t <= n,
            used@.len() == t,
            forall|u: int| 0 <= u < t ==> !(#[trigger] used@[u]),
        decreases n - t,
    {
        used.push(false);
        t = t + 1;
    }
    proof {
        assert(used@ =~= Seq::new(islands@.len() as nat, |u: int| false));
    }
    let ghost ospec = order_islands(iview, used@, pos, n as nat);
    let mut out: Vec<Vec<Vec<Point3>>> = Vec::new();
    let mut cur = pos;
    let mut it: usize = 0;
    while it < n
        invariant_except_break
            0 <= it <= n,
            n == islands@.len(),
            iview == Seq::new(
                islands@.len() as nat,
                |tt: int| Seq::new(islands@[tt]@.len() as nat, |u: int| islands@[tt]@[u]@),
            ),
            islands_wf(iview),
            forall|tt: int| 0 <= tt < islands@.len() ==> (#[trigger] islands@[tt])@.len() > 0,
            used@.len() == n,
            crate::codec::point_ok(cur),
            ({
                let rec = order_islands(iview, used@, cur, (n - it) as nat);
                &&& ospec.0 == Seq::new(
                    out@.len() as nat,
                    |tt: int| Seq::new(out@[tt]@.len() as nat, |u: int| out@[tt]@[u]@),
                ) + rec.0
                &&& ospec.1 == rec.1
            }),
        ensures
            ({
                &&& ospec.0 == Seq::new(
                    out@.len() as nat,
                    |tt: int| Seq::new(out@[tt]@.len() as nat, |u: int| out@[tt]@[u]@),
                )
                &&& ospec.1 == cur
            }),
        decreases n - it,
    {
        let mut keys: Vec<i128> = Vec::new();
        let ghost kspec = Seq::new(iview.len(), |tt: int| d2(cur, iview[tt][0][0]));
        let mut u: usize = 0;
        while u < n
            invariant
                0 <= u <= n,
                n == islands@.len(),
                iview == Seq::new(
                    islands@.len() as nat,
                    |tt: int| Seq::new(islands@[tt]@.len() as nat, |uu: int| islands@[tt]@[uu]@),
                ),
                islands_wf(iview),
                forall|tt: int| 0 <= tt < islands@.len() ==> (#[trigger] islands@[tt])@.len() > 0,
                kspec == Seq::new(iview.len(), |tt: int| d2(cur, iview[tt][0][0])),
                crate::codec::point_ok(cur),
                keys@.len() == u,
                forall|uu: int| 0 <= uu < u ==> (#[trigger] keys@[uu]) as int == kspec[uu],
            decreases n - u,
        {
            proof {
                assert(iview[u as int].len() > 0);
                assert(iview[u as int][0].len() > 0);
                assert(iview[u as int][0] == islands@[u as int]@[0]@);
                assert(crate::codec::point_ok(iview[u as int][0][0]));
            }
            let isl = &islands[u];
            let fseg = &isl[0];
            let k = d2_exec(&cur, &fseg[0]);
            keys.push(k);
            u = u + 1;
        }
        match argmin_exec(&keys, &used, Ghost(kspec)) {
            Option::None => {
                break;
            },
            Option::Some(i) => {
                proof {
                    assert(argmin_from(kspec, used@, 0) == Option::Some(i as int));
                    assert(i < islands@.len());
                    assert(iview[i as int] == Seq::new(
                        islands@[i as int]@.len() as nat,
                        |u2: int| islands@[i as int]@[u2]@,
                    ));
                }
                let isl = &islands[i];
                proof {
                    assert forall|u2: int| 0 <= u2 < isl@.len() implies (#[trigger] isl@[u2])@.len()
                        > 0 by {
                        assert(iview[i as int][u2].len() > 0);
                        assert(iview[i as int][u2] == isl@[u2]@);
                    };
                    assert forall|u2: int, q: int|
                        0 <= u2 < isl@.len() && 0 <= q < isl@[u2]@.len()
                            implies crate::codec::point_ok(#[trigger] isl@[u2]@[q]) by {
                        assert(iview[i as int][u2] == isl@[u2]@);
                        assert(crate::codec::point_ok(iview[i as int][u2][q]));
                    };
                }
                let inner = order_segs_exec(isl, cur);
                let (osegs, npos) = inner;
                proof {
                    let innerspec = order_segs(
                        iview[i as int],
                        Seq::new(iview[i as int].len(), |u2: int| false),
                        cur,
                        iview[i as int].len(),
                    );
                    assert(Seq::new(isl@.len() as nat, |u2: int| isl@[u2]@) =~= iview[i as int]);
                    assert(Seq::new(isl@.len() as nat, |u2: int| false) =~= Seq::new(
                        iview[i as int].len(),
                        |u2: int| false,
                    ));
                    assert(npos == innerspec.1);
                    assert(Seq::new(osegs@.len() as nat, |u2: int| osegs@[u2]@) =~= innerspec.0);
                }
                out.push(osegs);
                used.set(i, true);
                cur = npos;
                it = it + 1;
                proof {
                    assert(ospec.0 =~= Seq::new(
                        out@.len() as nat,
                        |tt: int| Seq::new(out@[tt]@.len() as nat, |u2: int| out@[tt]@[u2]@),
                    ) + order_islands(iview, used@, cur, (n - it) as nat).0);
                }
            },
        }
    }
    (out, cur)
}

/// Points of a split column carry the column's stored values.
proof fn lemma_seg_split_points(col: Seq<LayerPoint>, lim: int)
    requires
        forall|rj: int|
            0 <= rj < col.len() ==> {
                let lp = #[trigger] col[rj];
                0 <= lp.x <= lim && 0 <= lp.y <= lim && (lp.z is Some ==> -lim <= lp.z->0 <= lim)
            },
        0 < lim <= crate::codec::CODE_LIMIT,
    ensures
        forall|i: int, q: int|
            0 <= i < seg_split(col).len() && 0 <= q < seg_split(col)[i].len()
                ==> crate::codec::point_ok(#[trigger] seg_split(col)[i][q]),
    decreases col.len(),
{
    if col.len() > 0 {
        lemma_seg_split_points(col.drop_last(), lim);
        let rest = seg_split(col.drop_last());
        let lp = col.last();
        assert(lp == col[col.len() - 1]);
        match lp.z {
            Option::None => {},
            Option::Some(z) => {
                let pt = Point3 { x: lp.x, y: lp.y, z };
                assert(crate::codec::point_ok(pt));
                if col.len() >= 2 && col[col.len() - 2].z is Some {
                    lemma_seg_split_nonempty(col.drop_last());
                    assert(col.drop_last().last() == col[col.len() - 2]);
                    let updated = rest.update(rest.len() - 1, rest.last().push(pt));
                    assert forall|i: int, q: int|
                        0 <= i < updated.len() && 0 <= q < updated[i].len()
                            implies crate::codec::point_ok(#[trigger] updated[i][q]) by {
                        if i == rest.len() - 1 {
                            assert(updated[i] == rest.last().push(pt));
                        } else {
                            assert(updated[i] == rest[i]);
                        }
                    };
                }
            },
        }
    }
}

/// Points of a layer's segments are within the codec's range whenever the
/// layer's stored values are.
pub proof fn lemma_segs_points_ok(layer: Seq<Seq<LayerPoint>>)
    requires
        crate::layers::layer_vals_ok(layer),
    ensures
        forall|i: int, q: int|
            0 <= i < segs_of_layer(layer).len() && 0 <= q < segs_of_layer(layer)[i].len()
                ==> crate::codec::point_ok(#[trigger] segs_of_layer(layer)[i][q]),
    decreases layer.len(),
{
    if layer.len() > 0 {
        assert(crate::layers::layer_vals_ok(layer.drop_last())) by {
            assert(forall|ci: int, rj: int|
                0 <= ci < layer.len() - 1 && 0 <= rj < layer.drop_last()[ci].len()
                    ==> #[trigger] layer.drop_last()[ci][rj] == layer[ci][rj]);
        };
        lemma_segs_points_ok(layer.drop_last());
        assert forall|rj: int| 0 <= rj < layer.last().len() implies {
            let lp = #[trigger] layer.last()[rj];
            0 <= lp.x <= 0x400_0000_0000 && 0 <= lp.y <= 0x400_0000_0000 && (lp.z is Some
                ==> -0x400_0000_0000 <= lp.z->0 <= 0x400_0000_0000)
        } by {
            assert(layer.last() == layer[layer.len() - 1]);
            assert(layer[layer.len() - 1][rj] == layer.last()[rj]);
            assert(-6 * crate::layers::Z_LIMIT >= -0x400_0000_0000);
        };
        lemma_seg_split_points(layer.last(), 0x400_0000_0000);
        let rest = segs_of_layer(layer.drop_last());
        let tail = seg_split(layer.last());
        assert forall|i: int, q: int|
            0 <= i < segs_of_layer(layer).len() && 0 <= q < segs_of_layer(layer)[i].len()
                implies crate::codec::point_ok(#[trigger] segs_of_layer(layer)[i][q]) by {
            if i < rest.len() {
                assert(segs_of_layer(layer)[i] == rest[i]);
            } else {
                assert(segs_of_layer(layer)[i] == tail[i - rest.len()]);
            }
        };
    }
}

/// The closure keeps every direct edge, in particular the diagonal.
proof fn lemma_fw_keeps(r: Seq<Seq<bool>>, k: nat, i: int, j: int)
    requires
        0 <= i < r.len(),
        0 <= j < r.len(),
        forall|ii: int| 0 <= ii < r.len() ==> (#[trigger] r[ii]).len() == r.len(),
        r[i][j],
    ensures
        fw(r, k).len() == r.len(),
        forall|ii: int| 0 <= ii < r.len() ==> (#[trigger] fw(r, k)[ii]).len() == r.len(),
        fw(r, k)[i][j],
    decreases k,
{
    if k > 0 {
        lemma_fw_keeps(r, (k - 1) as nat, i, j);
        let prev = fw(r, (k - 1) as nat);
        assert forall|ii: int| 0 <= ii < r.len() implies (#[trigger] fw(r, k)[ii]).len()
            == r.len() by {
            assert(fw(r, k)[ii] == Seq::new(prev.len(), |jj: int| prev[ii][jj] || (prev[ii][k - 1]
                && prev[k - 1][jj])));
        };
        assert(fw(r, k)[i][j] == (prev[i][j] || (prev[i][k - 1] && prev[k - 1][j])));
    }
}

/// Every island of a well-formed segment list is non-empty, and each of
/// its segments is a segment of the list, named by its index.
pub proof fn lemma_islands_of_wf(segs: Seq<Seq<Point3>>, rad: int)
    ensures
        ({
            let isl = islands_of(segs, rad);
            let groups = islands_rec(reach_of(segs, rad), segs.len());
            &&& isl.len() == groups.len()
            &&& forall|t: int|
                0 <= t < isl.len() ==> (#[trigger] isl[t]).len() == groups[t].len()
                    && groups[t].len() > 0
            &&& forall|t: int, u: int|
                0 <= t < isl.len() && 0 <= u < groups[t].len() ==> 0 <= #[trigger] groups[t][u]
                    < segs.len() && isl[t][u] == segs[groups[t][u]]
        }),
{
    let n = segs.len() as int;
    let adj = adj_matrix(segs, rad);
    let reach = reach_of(segs, rad);
    assert forall|ii: int| 0 <= ii < n implies #[trigger] reach[ii][ii] && reach[ii].len()
        == n by {
        assert(adj[ii][ii]);
        lemma_fw_keeps(adj, segs.len(), ii, ii);
    };
    assert(reach.len() == n) by {
        if segs.len() > 0 {
            lemma_fw_keeps(adj, segs.len(), 0, 0);
        } else {
            assert(fw(adj, 0) == adj);
        }
    };
    let groups = islands_rec(reach, segs.len());
    assert forall|t: int| 0 <= t < groups.len() implies (#[trigger] groups[t]).len() > 0
        && (forall|u: int| 0 <= u < groups[t].len() ==> 0 <= #[trigger] groups[t][u]
        < n) by {
        lemma_islands_rec_wf(reach, segs.len() as nat, t, n);
    };
    let isl = islands_of(segs, rad);
    assert forall|t: int| 0 <= t < isl.len() implies (#[trigger] isl[t]).len()
        == groups[t].len() by {
        assert(isl[t] == groups[t].map_values(|j: int| segs[j]));
    };
    assert forall|t: int, u: int|
        0 <= t < isl.len() && 0 <= u < groups[t].len() implies 0 <= #[trigger] groups[t][u]
        < segs.len() && isl[t][u] == segs[groups[t][u]] by {
        assert(isl[t] == groups[t].map_values(|j: int| segs[j]));
    };
}

/// Structural facts of the grouped indices: every group is non-empty
/// (its root reaches itself) and holds only indices below `n`.
proof fn lemma_islands_rec_wf(reach: Seq<Seq<bool>>, m: nat, t: int, n: int)
    requires
        n == reach.len(),
        m <= n,
        0 <= t < islands_rec(reach, m).len(),
        forall|ii: int| 0 <= ii < n ==> (#[trigger] reach[ii]).len() == n,
        forall|ii: int| 0 <= ii < n ==> #[trigger] reach[ii][ii],
    ensures
        islands_rec(reach, m)[t].len() > 0,
        forall|u: int|
            0 <= u < islands_rec(reach, m)[t].len() ==> 0 <= #[trigger] islands_rec(reach, m)[t][u]
                < n,
    decreases m,
{
    if m > 0 {
        let rest = islands_rec(reach, (m - 1) as nat);
        if is_root(reach, m - 1) {
            if t < rest.len() {
                lemma_islands_rec_wf(reach, (m - 1) as nat, t, n);
            } else {
                let ii = island_idx(reach, m - 1);
                assert(islands_rec(reach, m)[t] == ii);
                assert(Seq::new(reach.len(), |j: int| j)[m - 1] == m - 1);
                Seq::new(reach.len(), |j: int| j).lemma_filter_contains(
                    |j: int| reach[m - 1][j],
                    m - 1,
                );
                assert(ii.contains(m - 1));
                assert(ii.len() > 0);
                assert forall|u: int| 0 <= u < ii.len() implies 0 <= #[trigger] ii[u] < n by {
                    lemma_filter_elt_from(
                        Seq::new(reach.len(), |j: int| j),
                        |j: int| reach[m - 1][j],
                        u,
                    );
                };
            }
        } else {
            lemma_islands_rec_wf(reach, (m - 1) as nat, t, n);
        }
    }
}


/// The chosen index is in range and unused.
proof fn lemma_argmin_props(keys: Seq<int>, used: Seq<bool>, i: nat)
    requires
        used.len() == keys.len(),
    ensures
        argmin_from(keys, used, i) matches Option::Some(j) ==> i <= j < keys.len() && !used[j],
    decreases keys.len() - i,
{
    if i < keys.len() {
        lemma_argmin_props(keys, used, (i + 1) as nat);
    }
}

/// With any unused entry left, something is chosen.
proof fn lemma_argmin_some(keys: Seq<int>, used: Seq<bool>, i: nat, w: int)
    requires
        used.len() == keys.len(),
        i <= w < keys.len(),
        !used[w],
    ensures
        argmin_from(keys, used, i) is Some,
    decreases keys.len() - i,
{
    if w > i {
        lemma_argmin_some(keys, used, (i + 1) as nat, w);
    }
}

/// The ordered segments are the input segments, each possibly walked
/// backwards: non-empty with in-range points, ending at an in-range
/// position.
pub proof fn lemma_order_segs_wf(segs: Seq<Seq<Point3>>, used: Seq<bool>, pos: Point3, fuel: nat)
    requires
        used.len() == segs.len(),
        forall|u: int| 0 <= u < segs.len() ==> (#[trigger] segs[u]).len() > 0,
        forall|u: int, q: int|
            0 <= u < segs.len() && 0 <= q < segs[u].len() ==> crate::codec::point_ok(
                #[trigger] segs[u][q],
            ),
        crate::codec::point_ok(pos),
    ensures
        ({
            let r = order_segs(segs, used, pos, fuel);
            &&& forall|t: int| 0 <= t < r.0.len() ==> (#[trigger] r.0[t]).len() > 0
            &&& forall|t: int, q: int|
                0 <= t < r.0.len() && 0 <= q < r.0[t].len() ==> crate::codec::point_ok(
                    #[trigger] r.0[t][q],
                )
            &&& crate::codec::point_ok(r.1)
            &&& (fuel >= 1 && (exists|w: int| 0 <= w < segs.len() && !used[w]) ==> r.0.len() >= 1)
        }),
    decreases fuel,
{
    if fuel > 0 {
        let keys = Seq::new(segs.len(), |i: int| seg_key(segs[i], pos));
        lemma_argmin_props(keys, used, 0);
        match argmin_from(keys, used, 0) {
            Option::None => {
                if exists|w: int| 0 <= w < segs.len() && !used[w] {
                    let w = choose|w: int| 0 <= w < segs.len() && !used[w];
                    lemma_argmin_some(keys, used, 0, w);
                }
            },
            Option::Some(i) => {
                let s = if d2(pos, segs[i].last()) < d2(pos, segs[i][0]) {
                    seg_rev(segs[i])
                } else {
                    segs[i]
                };
                assert(s.len() == segs[i].len());
                assert forall|q: int| 0 <= q < s.len() implies crate::codec::point_ok(
                    #[trigger] s[q],
                ) by {
                    if d2(pos, segs[i].last()) < d2(pos, segs[i][0]) {
                        assert(s[q] == segs[i][segs[i].len() - 1 - q]);
                    }
                };
                lemma_order_segs_wf(segs, used.update(i, true), s.last(), (fuel - 1) as nat);
                let rec = order_segs(segs, used.update(i, true), s.last(), (fuel - 1) as nat);
                let r = order_segs(segs, used, pos, fuel);
                assert(r.0 == seq![s] + rec.0);
                assert forall|t: int| 0 <= t < r.0.len() implies (#[trigger] r.0[t]).len() > 0 by {
                    if t == 0 {
                        assert(r.0[t] == s);
                    } else {
                        assert(r.0[t] == rec.0[t - 1]);
                    }
                };
                assert forall|t: int, q: int|
                    0 <= t < r.0.len() && 0 <= q < r.0[t].len() implies crate::codec::point_ok(
                    #[trigger] r.0[t][q],
                ) by {
                    if t == 0 {
                        assert(r.0[t] == s);
                    } else {
                        assert(r.0[t] == rec.0[t - 1]);
                    }
                };
            },
        }
    }
}

/// The planned islands are non-empty lists of non-empty segments with
/// in-range points, ending at an in-range position.
pub proof fn lemma_order_islands_wf(
    islands: Seq<Seq<Seq<Point3>>>,
    used: Seq<bool>,
    pos: Point3,
    fuel: nat,
)
    requires
        used.len() == islands.len(),
        islands_wf(islands),
        forall|t: int| 0 <= t < islands.len() ==> (#[trigger] islands[t]).len() > 0,
        crate::codec::point_ok(pos),
    ensures
        ({
            let r = order_islands(islands, used, pos, fuel);
            &&& forall|t: int| 0 <= t < r.0.len() ==> (#[trigger] r.0[t]).len() > 0
            &&& forall|t: int, u: int|
                0 <= t < r.0.len() && 0 <= u < r.0[t].len() ==> (#[trigger] r.0[t][u]).len() > 0
            &&& forall|t: int, u: int, q: int|
                0 <= t < r.0.len() && 0 <= u < r.0[t].len() && 0 <= q < r.0[t][u].len()
                    ==> crate::codec::point_ok(#[trigger] r.0[t][u][q])
            &&& crate::codec::point_ok(r.1)
        }),
    decreases fuel,
{
    if fuel > 0 {
        let keys = Seq::new(islands.len(), |t: int| d2(pos, islands[t][0][0]));
        lemma_argmin_props(keys, used, 0);
        match argmin_from(keys, used, 0) {
            Option::None => {},
            Option::Some(t) => {
                let falses = Seq::new(islands[t].len(), |u: int| false);
                assert forall|u: int| 0 <= u < islands[t].len() implies (
                #[trigger] islands[t][u]).len() > 0 by {};
                assert forall|u: int, q: int|
                    0 <= u < islands[t].len() && 0 <= q < islands[t][u].len()
                        implies crate::codec::point_ok(#[trigger] islands[t][u][q]) by {};
                lemma_order_segs_wf(islands[t], falses, pos, islands[t].len());
                let inner = order_segs(islands[t], falses, pos, islands[t].len());
                assert(inner.0.len() >= 1) by {
                    assert(islands[t].len() >= 1);
                    assert(!falses[0]);
                };
                lemma_order_islands_wf(islands, used.update(t, true), inner.1, (fuel - 1) as nat);
                let rec = order_islands(islands, used.update(t, true), inner.1, (fuel - 1) as nat);
                let r = order_islands(islands, used, pos, fuel);
                assert(r.0 == seq![inner.0] + rec.0);
                assert forall|tt: int| 0 <= tt < r.0.len() implies (#[trigger] r.0[tt]).len()
                    > 0 by {
                    if tt == 0 {
                        assert(r.0[tt] == inner.0);
                    } else {
                        assert(r.0[tt] == rec.0[tt - 1]);
                    }
                };
                assert forall|tt: int, u: int|
                    0 <= tt < r.0.len() && 0 <= u < r.0[tt].len() implies (
                #[trigger] r.0[tt][u]).len() > 0 by {
                    if tt == 0 {
                        assert(r.0[tt] == inner.0);
                    } else {
                        assert(r.0[tt] == rec.0[tt - 1]);
                    }
                };
                assert forall|tt: int, u: int, q: int|
                    0 <= tt < r.0.len() && 0 <= u < r.0[tt].len() && 0 <= q < r.0[tt][u].len()
                        implies crate::codec::point_ok(#[trigger] r.0[tt][u][q]) by {
                    if tt == 0 {
                        assert(r.0[tt] == inner.0);
                    } else {
                        assert(r.0[tt] == rec.0[tt - 1]);
                    }
                };
            },
        }
    }
}

} // verus!
