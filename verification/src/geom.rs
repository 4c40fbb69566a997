//! Geometric primitives: points, triangles, bounding boxes, and mesh
//! normalization. Coordinates are fixed-point integers in micrometers.

use vstd::prelude::*;

verus! {

/// Largest coordinate magnitude (in micrometers) a mesh read from disk may
/// carry: one meter. Normalization at most doubles it, and every later
/// product of two coordinate differences then fits comfortably in an `i128`.
pub const COORD_LIMIT: i64 = 1_000_000_000;

#[derive(Clone, Copy, PartialEq, Eq, Structural, Debug)]
pub struct Point3 {
    pub x: i64,
    pub y: i64,
    pub z: i64,
}

#[derive(Clone, Copy, PartialEq, Eq, Structural, Debug)]
pub struct Triangle {
    pub a: Point3,
    pub b: Point3,
    pub c: Point3,
}

/// Componentwise bounding box of a mesh: `p1` holds the minima, `p2` the
/// maxima over every vertex.
#[derive(Clone, Copy, PartialEq, Eq, Structural, Debug)]
pub struct Bounds {
    pub p1: Point3,
    pub p2: Point3,
}

pub open spec fn pt_in_range(p: Point3, m: int) -> bool {
    &&& -m <= p.x <= m
    &&& -m <= p.y <= m
    &&& -m <= p.z <= m
}

pub open spec fn tri_in_range(t: Triangle, m: int) -> bool {
    pt_in_range(t.a, m) && pt_in_range(t.b, m) && pt_in_range(t.c, m)
}

pub open spec fn mesh_in_range(tris: Seq<Triangle>, m: int) -> bool {
    forall|i: int| 0 <= i < tris.len() ==> tri_in_range(#[trigger] tris[i], m)
}

/// Every vertex of `t` lies inside the box `[b.p1, b.p2]`, componentwise.
pub open spec fn tri_within(t: Triangle, b: Bounds) -> bool {
    &&& b.p1.x <= t.a.x <= b.p2.x && b.p1.y <= t.a.y <= b.p2.y && b.p1.z <= t.a.z <= b.p2.z
    &&& b.p1.x <= t.b.x <= b.p2.x && b.p1.y <= t.b.y <= b.p2.y && b.p1.z <= t.b.z <= b.p2.z
    &&& b.p1.x <= t.c.x <= b.p2.x && b.p1.y <= t.c.y <= b.p2.y && b.p1.z <= t.c.z <= b.p2.z
}

/// Some vertex of `t` has `f`-coordinate equal to `v`; `f` selects the
/// coordinate: 0 for x, 1 for y, 2 for z.
pub open spec fn tri_attains(t: Triangle, f: int, v: int) -> bool {
    ||| coord(t.a, f) == v
    ||| coord(t.b, f) == v
    ||| coord(t.c, f) == v
}

pub open spec fn coord(p: Point3, f: int) -> int {
    if f == 0 {
        p.x as int
    } else if f == 1 {
        p.y as int
    } else {
        p.z as int
    }
}

/// `b` is the componentwise min/max bounding box of the mesh: every vertex
/// lies inside it and each of its six faces touches some vertex.
pub open spec fn is_bounds_of(tris: Seq<Triangle>, b: Bounds) -> bool {
    &&& tris.len() > 0
    &&& forall|i: int| 0 <= i < tris.len() ==> tri_within(#[trigger] tris[i], b)
    &&& exists|i: int| 0 <= i < tris.len() && tri_attains(#[trigger] tris[i], 0, b.p1.x as int)
    &&& exists|i: int| 0 <= i < tris.len() && tri_attains(#[trigger] tris[i], 1, b.p1.y as int)
    &&& exists|i: int| 0 <= i < tris.len() && tri_attains(#[trigger] tris[i], 2, b.p1.z as int)
    &&& exists|i: int| 0 <= i < tris.len() && tri_attains(#[trigger] tris[i], 0, b.p2.x as int)
    &&& exists|i: int| 0 <= i < tris.len() && tri_attains(#[trigger] tris[i], 1, b.p2.y as int)
    &&& exists|i: int| 0 <= i < tris.len() && tri_attains(#[trigger] tris[i], 2, b.p2.z as int)
}

/// A mesh has exactly one bounding box.
pub proof fn lemma_bounds_unique(tris: Seq<Triangle>, b1: Bounds, b2: Bounds)
    requires
        is_bounds_of(tris, b1),
        is_bounds_of(tris, b2),
    ensures
        b1 == b2,
{
}

/// The corners of a mesh's bounding box lie within the mesh's own
/// coordinate range.
pub proof fn lemma_bounds_in_range(tris: Seq<Triangle>, b: Bounds, m: int)
    requires
        mesh_in_range(tris, m),
        is_bounds_of(tris, b),
    ensures
        pt_in_range(b.p1, m),
        pt_in_range(b.p2, m),
{
    let i0 = choose|i: int| 0 <= i < tris.len() && tri_attains(#[trigger] tris[i], 0, b.p1.x as int);
    let i1 = choose|i: int| 0 <= i < tris.len() && tri_attains(#[trigger] tris[i], 1, b.p1.y as int);
    let i2 = choose|i: int| 0 <= i < tris.len() && tri_attains(#[trigger] tris[i], 2, b.p1.z as int);
    let j0 = choose|i: int| 0 <= i < tris.len() && tri_attains(#[trigger] tris[i], 0, b.p2.x as int);
    let j1 = choose|i: int| 0 <= i < tris.len() && tri_attains(#[trigger] tris[i], 1, b.p2.y as int);
    let j2 = choose|i: int| 0 <= i < tris.len() && tri_attains(#[trigger] tris[i], 2, b.p2.z as int);
    assert(tri_in_range(tris[i0], m));
    assert(tri_in_range(tris[i1], m));
    assert(tri_in_range(tris[i2], m));
    assert(tri_in_range(tris[j0], m));
    assert(tri_in_range(tris[j1], m));
    assert(tri_in_range(tris[j2], m));
}

pub open spec fn translate_pt(p: Point3, dx: int, dy: int, dz: int) -> Point3 {
    Point3 { x: (p.x + dx) as i64, y: (p.y + dy) as i64, z: (p.z + dz) as i64 }
}

pub open spec fn translate_tri(t: Triangle, dx: int, dy: int, dz: int) -> Triangle {
    Triangle {
        a: translate_pt(t.a, dx, dy, dz),
        b: translate_pt(t.b, dx, dy, dz),
        c: translate_pt(t.c, dx, dy, dz),
    }
}

/// Translating a mesh by the negated corner of its bounding box moves the
/// box so that its minimum x and y and its maximum z are 0.
pub proof fn lemma_translate_bounds(orig: Seq<Triangle>, new: Seq<Triangle>, b: Bounds, m: int)
    requires
        0 < m <= COORD_LIMIT as int,
        mesh_in_range(orig, m),
        is_bounds_of(orig, b),
        new.len() == orig.len(),
        forall|k: int|
            0 <= k < orig.len() ==> new[k] == translate_tri(
                #[trigger] orig[k],
                -b.p1.x,
                -b.p1.y,
                -b.p2.z,
            ),
    ensures
        is_bounds_of(
            new,
            Bounds {
                p1: Point3 { x: 0, y: 0, z: (b.p1.z - b.p2.z) as i64 },
                p2: Point3 { x: (b.p2.x - b.p1.x) as i64, y: (b.p2.y - b.p1.y) as i64, z: 0 },
            },
        ),
        mesh_in_range(new, 2 * m),
{
    lemma_bounds_in_range(orig, b, m);
    let nb = Bounds {
        p1: Point3 { x: 0, y: 0, z: (b.p1.z - b.p2.z) as i64 },
        p2: Point3 { x: (b.p2.x - b.p1.x) as i64, y: (b.p2.y - b.p1.y) as i64, z: 0 },
    };
    assert forall|k: int| 0 <= k < new.len() implies tri_within(#[trigger] new[k], nb)
        && tri_in_range(new[k], 2 * m) by {
        assert(tri_within(orig[k], b));
        assert(tri_in_range(orig[k], m));
    };
    let i0 = choose|i: int| 0 <= i < orig.len() && tri_attains(#[trigger] orig[i], 0, b.p1.x as int);
    let i1 = choose|i: int| 0 <= i < orig.len() && tri_attains(#[trigger] orig[i], 1, b.p1.y as int);
    let i2 = choose|i: int| 0 <= i < orig.len() && tri_attains(#[trigger] orig[i], 2, b.p1.z as int);
    let j0 = choose|i: int| 0 <= i < orig.len() && tri_attains(#[trigger] orig[i], 0, b.p2.x as int);
    let j1 = choose|i: int| 0 <= i < orig.len() && tri_attains(#[trigger] orig[i], 1, b.p2.y as int);
    let j2 = choose|i: int| 0 <= i < orig.len() && tri_attains(#[trigger] orig[i], 2, b.p2.z as int);
    assert(tri_in_range(orig[i0], m) && tri_attains(new[i0], 0, nb.p1.x as int));
    assert(tri_in_range(orig[i1], m) && tri_attains(new[i1], 1, nb.p1.y as int));
    assert(tri_in_range(orig[i2], m) && tri_attains(new[i2], 2, nb.p1.z as int));
    assert(tri_in_range(orig[j0], m) && tri_attains(new[j0], 0, nb.p2.x as int));
    assert(tri_in_range(orig[j1], m) && tri_attains(new[j1], 1, nb.p2.y as int));
    assert(tri_in_range(orig[j2], m) && tri_attains(new[j2], 2, nb.p2.z as int));
}

fn pt_min_max(p: &Point3, lo: &mut Point3, hi: &mut Point3)
    ensures
        final(lo).x == vstd::math::min(old(lo).x as int, p.x as int),
        final(lo).y == vstd::math::min(old(lo).y as int, p.y as int),
        final(lo).z == vstd::math::min(old(lo).z as int, p.z as int),
        final(hi).x == vstd::math::max(old(hi).x as int, p.x as int),
        final(hi).y == vstd::math::max(old(hi).y as int, p.y as int),
        final(hi).z == vstd::math::max(old(hi).z as int, p.z as int),
{
    if p.x < lo.x {
        lo.x = p.x;
    }
    if p.y < lo.y {
        lo.y = p.y;
    }
    if p.z < lo.z {
        lo.z = p.z;
    }
    if p.x > hi.x {
        hi.x = p.x;
    }
    if p.y > hi.y {
        hi.y = p.y;
    }
    if p.z > hi.z {
        hi.z = p.z;
    }
}

/// Componentwise min/max bounding box of a non-empty mesh.
pub fn get_bounds(tris: &Vec<Triangle>) -> (b: Bounds)
    requires
        tris@.len() > 0,
    ensures
        is_bounds_of(tris@, b),
{
    let first = tris[0];
    let mut lo = first.a;
    let mut hi = first.a;
    pt_min_max(&first.b, &mut lo, &mut hi);
    pt_min_max(&first.c, &mut lo, &mut hi);
    let mut i: usize = 1;
    while i < tris.len()
        invariant
            1 <= i <= tris@.len(),
            forall|k: int| 0 <= k < i ==> tri_within(#[trigger] tris@[k], Bounds { p1: lo, p2: hi }),
            exists|k: int| 0 <= k < i && tri_attains(#[trigger] tris@[k], 0, lo.x as int),
            exists|k: int| 0 <= k < i && tri_attains(#[trigger] tris@[k], 1, lo.y as int),
            exists|k: int| 0 <= k < i && tri_attains(#[trigger] tris@[k], 2, lo.z as int),
            exists|k: int| 0 <= k < i && tri_attains(#[trigger] tris@[k], 0, hi.x as int),
            exists|k: int| 0 <= k < i && tri_attains(#[trigger] tris@[k], 1, hi.y as int),
            exists|k: int| 0 <= k < i && tri_attains(#[trigger] tris@[k], 2, hi.z as int),
        decreases tris@.len() - i,
    {
        let t = tris[i];
        pt_min_max(&t.a, &mut lo, &mut hi);
        pt_min_max(&t.b, &mut lo, &mut hi);
        pt_min_max(&t.c, &mut lo, &mut hi);
        i = i + 1;
    }
    Bounds { p1: lo, p2: hi }
}

/// Translate the mesh so that its minimum x and y become 0 and its maximum z
/// becomes 0 (the stock top coincides with the plane z = 0).
pub fn move_to_zero(tris: &mut Vec<Triangle>)
    requires
        old(tris)@.len() > 0,
        mesh_in_range(old(tris)@, COORD_LIMIT as int),
    ensures
        final(tris)@.len() == old(tris)@.len(),
        mesh_in_range(final(tris)@, 2 * COORD_LIMIT as int),
        forall|b: Bounds|
            is_bounds_of(old(tris)@, b) ==> forall|i: int|
                0 <= i < final(tris)@.len() ==> final(tris)@[i] == translate_tri(
                    #[trigger] old(tris)@[i],
                    -b.p1.x,
                    -b.p1.y,
                    -b.p2.z,
                ),
        forall|b: Bounds|
            is_bounds_of(old(tris)@, b) ==> is_bounds_of(
                final(tris)@,
                Bounds {
                    p1: Point3 {
                        x: 0,
                        y: 0,
                        z: (b.p1.z - b.p2.z) as i64,
                    },
                    p2: Point3 {
                        x: (b.p2.x - b.p1.x) as i64,
                        y: (b.p2.y - b.p1.y) as i64,
                        z: 0,
                    },
                },
            ),
{
    let b = get_bounds(tris);
    proof {
        lemma_bounds_in_range(tris@, b, COORD_LIMIT as int);
    }
    let dx = -b.p1.x;
    let dy = -b.p1.y;
    let dz = -b.p2.z;
    let ghost orig = tris@;
    let mut i: usize = 0;
    while i < tris.len()
        invariant
            0 <= i <= tris@.len(),
            tris@.len() == orig.len(),
            mesh_in_range(orig, COORD_LIMIT as int),
            pt_in_range(b.p1, COORD_LIMIT as int),
            pt_in_range(b.p2, COORD_LIMIT as int),
            dx == -b.p1.x && dy == -b.p1.y && dz == -b.p2.z,
            forall|k: int|
                0 <= k < i ==> tris@[k] == translate_tri(
                    #[trigger] orig[k],
                    dx as int,
                    dy as int,
                    dz as int,
                ),
            forall|k: int| i <= k < tris@.len() ==> tris@[k] == #[trigger] orig[k],
        decreases tris@.len() - i,
    {
        let t = tris[i];
        assert(tri_in_range(orig[i as int], COORD_LIMIT as int));
        let nt = Triangle {
            a: Point3 { x: t.a.x + dx, y: t.a.y + dy, z: t.a.z + dz },
            b: Point3 { x: t.b.x + dx, y: t.b.y + dy, z: t.b.z + dz },
            c: Point3 { x: t.c.x + dx, y: t.c.y + dy, z: t.c.z + dz },
        };
        tris.set(i, nt);
        i = i + 1;
    }
    proof {
        lemma_translate_bounds(orig, tris@, b, COORD_LIMIT as int);
        assert forall|bb: Bounds| is_bounds_of(orig, bb) implies bb == b by {
            lemma_bounds_unique(orig, bb, b);
        }
    }
}

} // verus!
