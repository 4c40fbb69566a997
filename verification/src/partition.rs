//! Spatial partitioning: bucket triangles into column boxes by 2D
//! bounding-box overlap, so that the height-map pass only probes the
//! triangles that can stand above a column's samples.

use crate::geom::Triangle;
use crate::grid::Aabb2;
use vstd::prelude::*;

verus! {

/// The 2D (x, y) bounding box of a triangle.
pub open spec fn tri_aabb(t: Triangle) -> Aabb2 {
    Aabb2 {
        x1: vstd::math::min(t.a.x as int, vstd::math::min(t.b.x as int, t.c.x as int)) as i64,
        y1: vstd::math::min(t.a.y as int, vstd::math::min(t.b.y as int, t.c.y as int)) as i64,
        x2: vstd::math::max(t.a.x as int, vstd::math::max(t.b.x as int, t.c.x as int)) as i64,
        y2: vstd::math::max(t.a.y as int, vstd::math::max(t.b.y as int, t.c.y as int)) as i64,
    }
}

/// Inclusive separating-axis overlap of two 2D boxes: a shared edge counts
/// as an overlap, so nothing is lost at column seams.
pub open spec fn aabb_overlap(a: Aabb2, b: Aabb2) -> bool {
    a.x1 <= b.x2 && b.x1 <= a.x2 && a.y1 <= b.y2 && b.y1 <= a.y2
}

/// A triangle belongs to a column box iff its 2D bounding box overlaps it.
pub open spec fn tri_hits_box(t: Triangle, b: Aabb2) -> bool {
    aabb_overlap(tri_aabb(t), b)
}

fn min3(a: i64, b: i64, c: i64) -> (r: i64)
    ensures
        r == vstd::math::min(a as int, vstd::math::min(b as int, c as int)),
{
    let mut r = a;
    if b < r {
        r = b;
    }
    if c < r {
        r = c;
    }
    r
}

fn max3(a: i64, b: i64, c: i64) -> (r: i64)
    ensures
        r == vstd::math::max(a as int, vstd::math::max(b as int, c as int)),
{
    let mut r = a;
    if b > r {
        r = b;
    }
    if c > r {
        r = c;
    }
    r
}

/// Whether a triangle's 2D bounding box overlaps the box `col`.
pub fn tri_overlaps(t: &Triangle, col: &Aabb2) -> (r: bool)
    ensures
        r == tri_hits_box(*t, *col),
{
    let x1 = min3(t.a.x, t.b.x, t.c.x);
    let y1 = min3(t.a.y, t.b.y, t.c.y);
    let x2 = max3(t.a.x, t.b.x, t.c.x);
    let y2 = max3(t.a.y, t.b.y, t.c.y);
    x1 <= col.x2 && col.x1 <= x2 && y1 <= col.y2 && col.y1 <= y2
}

/// For each column box, the list of triangles whose 2D bounding box
/// overlaps it, in mesh order. Every triangle that overlaps a box appears
/// in that box's bucket; one on a seam appears in every box it touches.
pub fn partition_tris(tris: &Vec<Triangle>, columns: &Vec<Aabb2>) -> (parts: Vec<Vec<Triangle>>)
    ensures
        parts@.len() == columns@.len(),
        forall|c: int|
            0 <= c < columns@.len() ==> (#[trigger] parts@[c])@ == tris@.filter(
                |t: Triangle| tri_hits_box(t, columns@[c]),
            ),
{
    let mut parts: Vec<Vec<Triangle>> = Vec::new();
    let mut c: usize = 0;
    while c < columns.len()
        invariant
            0 <= c <= columns@.len(),
            parts@.len() == c,
            forall|k: int|
                0 <= k < c ==> (#[trigger] parts@[k])@ == tris@.filter(
                    |t: Triangle| tri_hits_box(t, columns@[k]),
                ),
        decreases columns@.len() - c,
    {
        let col = columns[c];
        let mut bucket: Vec<Triangle> = Vec::new();
        let mut i: usize = 0;
        while i < tris.len()
            invariant
                0 <= i <= tris@.len(),
                bucket@ == tris@.take(i as int).filter(|t: Triangle| tri_hits_box(t, col)),
            decreases tris@.len() - i,
        {
            let t = tris[i];
            if tri_overlaps(&t, &col) {
                bucket.push(t);
            }
            proof {
                assert(tris@.take(i + 1) =~= tris@.take(i as int).push(tris@[i as int]));
                tris@.take(i as int).lemma_filter_push(
                    tris@[i as int],
                    |tt: Triangle| tri_hits_box(tt, col),
                );
            }
            i = i + 1;
        }
        proof {
            assert(tris@.take(tris@.len() as int) == tris@);
        }
        parts.push(bucket);
        c = c + 1;
    }
    parts
}

/// An element of a filtered sequence is an element of the original.
pub proof fn lemma_filter_elt<A>(s: Seq<A>, p: spec_fn(A) -> bool, u: int)
    requires
        0 <= u < s.filter(p).len(),
    ensures
        exists|i: int| 0 <= i < s.len() && s[i] == #[trigger] s.filter(p)[u],
    decreases s.len(),
{
    reveal(Seq::filter);
    if s.len() > 0 {
        let rest = s.drop_last();
        if p(s.last()) {
            if u < rest.filter(p).len() {
                lemma_filter_elt(rest, p, u);
                let w = choose|i: int| 0 <= i < rest.len() && rest[i] == rest.filter(p)[u];
                assert(s[w] == rest[w]);
            } else {
                assert(s.filter(p)[u] == s.last());
                assert(s[s.len() - 1] == s.last());
            }
        } else {
            lemma_filter_elt(rest, p, u);
            let w = choose|i: int| 0 <= i < rest.len() && rest[i] == rest.filter(p)[u];
            assert(s[w] == rest[w]);
        }
    }
}

} // verus!
