//! G-code emission: linear moves only, coordinates printed in millimeters
//! with three decimals. The file opens with a safe-height move at feed
//! 300; a gap wider than one and a half diameters retracts and rapids to
//! the next segment; every island ends with a retract to the stock top.

use crate::geom::Point3;
use crate::paths::d2;
use vstd::prelude::*;

verus! {

/// The decimal digits of `n`, most significant first, as ASCII bytes.
pub open spec fn dec_digits(n: nat) -> Seq<u8>
    decreases n,
{
    if n < 10 {
        seq![(48 + n) as u8]
    } else {
        dec_digits(n / 10).push((48 + n % 10) as u8)
    }
}

/// A micrometer value printed as millimeters with three decimals.
pub open spec fn fmt_mm(v: int) -> Seq<u8> {
    let a = (if v < 0 {
        -v
    } else {
        v
    }) as nat;
    let sign: Seq<u8> = if v < 0 {
        seq![45u8]
    } else {
        Seq::empty()
    };
    sign + dec_digits(a / 1000) + seq![
        46u8,
        (48 + (a % 1000) / 100) as u8,
        (48 + (a % 100) / 10) as u8,
        (48 + a % 10) as u8,
    ]
}

/// One cutting move: `G1 X.. Y.. Z..` and a line feed.
pub open spec fn g1_line(p: Point3) -> Seq<u8> {
    seq![71u8, 49u8, 32u8, 88u8] + fmt_mm(p.x as int) + seq![32u8, 89u8] + fmt_mm(p.y as int)
        + seq![32u8, 90u8] + fmt_mm(p.z as int) + seq![10u8]
}

/// Retract to the stock top and rapid over the next segment start:
/// `G0 Z0`, then `G0 X.. Y..`.
pub open spec fn rapid_to(p: Point3) -> Seq<u8> {
    seq![71u8, 48u8, 32u8, 90u8, 48u8, 10u8, 71u8, 48u8, 32u8, 88u8] + fmt_mm(p.x as int) + seq![
        32u8,
        89u8,
    ] + fmt_mm(p.y as int) + seq![10u8]
}

/// The retract that closes an island: `G0 Z0.000`.
pub open spec fn island_end() -> Seq<u8> {
    seq![71u8, 48u8, 32u8, 90u8, 48u8, 46u8, 48u8, 48u8, 48u8, 10u8]
}

/// The file's opening safe-height move: `G1 Z0.000 F300`.
pub open spec fn header() -> Seq<u8> {
    seq![71u8, 49u8, 32u8, 90u8, 48u8, 46u8, 48u8, 48u8, 48u8, 32u8, 70u8, 51u8, 48u8, 48u8, 10u8]
}

/// Cutting moves for every point of a segment, from index `j` on.
pub open spec fn emit_pts(s: Seq<Point3>, j: nat) -> Seq<u8>
    decreases s.len() - j,
{
    if j >= s.len() {
        Seq::empty()
    } else {
        g1_line(s[j as int]) + emit_pts(s, (j + 1) as nat)
    }
}

/// The bytes of one island's segments from index `i` on, threading the
/// cutter's position; a segment farther than one and a half diameters
/// from the last point gets a retract-and-rapid first.
pub open spec fn emit_segs(segs: Seq<Seq<Point3>>, i: nat, last: Point3, diam: int) -> (
    Seq<u8>,
    Point3,
)
    decreases segs.len() - i,
{
    if i >= segs.len() {
        (Seq::empty(), last)
    } else {
        let s = segs[i as int];
        let pre: Seq<u8> = if 4 * d2(last, s[0]) > 9 * diam * diam {
            rapid_to(s[0])
        } else {
            Seq::empty()
        };
        let rec = emit_segs(segs, (i + 1) as nat, s.last(), diam);
        (pre + emit_pts(s, 0) + rec.0, rec.1)
    }
}

/// The bytes of a layer's islands from index `t` on.
pub open spec fn emit_islands(islands: Seq<Seq<Seq<Point3>>>, t: nat, last: Point3, diam: int) -> (
    Seq<u8>,
    Point3,
)
    decreases islands.len() - t,
{
    if t >= islands.len() {
        (Seq::empty(), last)
    } else {
        let one = emit_segs(islands[t as int], 0, last, diam);
        let rec = emit_islands(islands, (t + 1) as nat, one.1, diam);
        (one.0 + island_end() + rec.0, rec.1)
    }
}

fn push_digits(out: &mut Vec<u8>, n: u64)
    ensures
        final(out)@ == old(out)@ + dec_digits(n as nat),
    decreases n,
{
    if n < 10 {
        out.push((48 + n) as u8);
        proof {
            assert(final(out)@ =~= old(out)@ + dec_digits(n as nat));
        }
    } else {
        proof {
            vstd::arithmetic::div_mod::lemma_div_is_strictly_smaller(n as int, 10);
            vstd::arithmetic::div_mod::lemma_div_pos_is_pos(n as int, 10);
            vstd::arithmetic::div_mod::lemma_mod_division_less_than_divisor(n as int, 10);
        }
        push_digits(out, n / 10);
        out.push((48 + n % 10) as u8);
        proof {
            assert(final(out)@ =~= old(out)@ + dec_digits(n as nat));
        }
    }
}

/// Append a micrometer value as millimeters with three decimals.
pub fn push_mm(out: &mut Vec<u8>, v: i64)
    requires
        -0x1000_0000_0000 <= v <= 0x1000_0000_0000,
    ensures
        final(out)@ == old(out)@ + fmt_mm(v as int),
{
    if v < 0 {
        out.push(45);
    }
    let a: u64 = if v < 0 {
        (-v) as u64
    } else {
        v as u64
    };
    proof {
        vstd::arithmetic::div_mod::lemma_mod_division_less_than_divisor(a as int, 1000);
        vstd::arithmetic::div_mod::lemma_mod_division_less_than_divisor(a as int, 100);
        vstd::arithmetic::div_mod::lemma_mod_division_less_than_divisor(a as int, 10);
        vstd::arithmetic::div_mod::lemma_div_pos_is_pos(a as int % 1000, 100);
        vstd::arithmetic::div_mod::lemma_div_is_ordered(a as int % 1000, 999, 100);
        vstd::arithmetic::div_mod::lemma_div_pos_is_pos(a as int % 100, 10);
        vstd::arithmetic::div_mod::lemma_div_is_ordered(a as int % 100, 99, 10);
    }
    push_digits(out, a / 1000);
    out.push(46);
    out.push((48 + (a % 1000) / 100) as u8);
    out.push((48 + (a % 100) / 10) as u8);
    out.push((48 + a % 10) as u8);
    proof {
        assert(final(out)@ =~= old(out)@ + fmt_mm(v as int));
    }
}

/// Append one cutting move.
fn push_g1(out: &mut Vec<u8>, p: &Point3)
    requires
        crate::codec::point_ok(*p),
    ensures
        final(out)@ == old(out)@ + g1_line(*p),
{
    out.push(71);
    out.push(49);
    out.push(32);
    out.push(88);
    push_mm(out, p.x);
    out.push(32);
    out.push(89);
    push_mm(out, p.y);
    out.push(32);
    out.push(90);
    push_mm(out, p.z);
    out.push(10);
    proof {
        assert(final(out)@ =~= old(out)@ + g1_line(*p));
    }
}

fn push_rapid(out: &mut Vec<u8>, p: &Point3)
    requires
        crate::codec::point_ok(*p),
    ensures
        final(out)@ == old(out)@ + rapid_to(*p),
{
    out.push(71);
    out.push(48);
    out.push(32);
    out.push(90);
    out.push(48);
    out.push(10);
    out.push(71);
    out.push(48);
    out.push(32);
    out.push(88);
    push_mm(out, p.x);
    out.push(32);
    out.push(89);
    push_mm(out, p.y);
    out.push(10);
    proof {
        assert(final(out)@ =~= old(out)@ + rapid_to(*p));
    }
}

fn emit_seg_pts(out: &mut Vec<u8>, sg: &Vec<Point3>)
    requires
        forall|q: int| 0 <= q < sg@.len() ==> crate::codec::point_ok(#[trigger] sg@[q]),
    ensures
        final(out)@ == old(out)@ + emit_pts(sg@, 0),
{
    let ghost base = out@;
    let ghost mut built: Seq<u8> = Seq::empty();
    let mut q: usize = 0;
    while q < sg.len()
        invariant
            0 <= q <= sg@.len(),
            forall|qq: int| 0 <= qq < sg@.len() ==> crate::codec::point_ok(#[trigger] sg@[qq]),
            out@ == base + built,
            emit_pts(sg@, 0) == built + emit_pts(sg@, q as nat),
        decreases sg@.len() - q,
    {
        let pt = sg[q];
        push_g1(out, &pt);
        proof {
            built = built + g1_line(sg@[q as int]);
            assert(emit_pts(sg@, q as nat) == g1_line(sg@[q as int]) + emit_pts(
                sg@,
                (q + 1) as nat,
            ));
            assert(emit_pts(sg@, 0) =~= built + emit_pts(sg@, (q + 1) as nat));
            assert(out@ =~= base + built);
        }
        q = q + 1;
    }
    proof {
        assert(final(out)@ =~= base + emit_pts(sg@, 0));
    }
}

fn emit_island(out: &mut Vec<u8>, isl: &Vec<Vec<Point3>>, last: Point3, diam: i64) -> (np: Point3)
    requires
        forall|u: int| 0 <= u < isl@.len() ==> (#[trigger] isl@[u])@.len() > 0,
        forall|u: int, q: int|
            0 <= u < isl@.len() && 0 <= q < isl@[u]@.len() ==> crate::codec::point_ok(
                #[trigger] isl@[u]@[q],
            ),
        crate::codec::point_ok(last),
        0 <= diam <= 1_000_000,
    ensures
        ({
            let sview = Seq::new(isl@.len() as nat, |u: int| isl@[u]@);
            let spec = emit_segs(sview, 0, last, diam as int);
            &&& final(out)@ == old(out)@ + spec.0
            &&& np == spec.1
            &&& crate::codec::point_ok(np)
        }),
{
    let ghost sview = Seq::new(isl@.len() as nat, |u: int| isl@[u]@);
    let ghost base = out@;
    let ghost mut built: Seq<u8> = Seq::empty();
    let ghost espec = emit_segs(sview, 0, last, diam as int);
    let mut cur = last;
    let mut u: usize = 0;
    let m = isl.len();
    while u < m
        invariant
            0 <= u <= m,
            m == isl@.len(),
            sview == Seq::new(isl@.len() as nat, |uu: int| isl@[uu]@),
            forall|uu: int| 0 <= uu < isl@.len() ==> (#[trigger] isl@[uu])@.len() > 0,
            forall|uu: int, q: int|
                0 <= uu < isl@.len() && 0 <= q < isl@[uu]@.len() ==> crate::codec::point_ok(
                    #[trigger] isl@[uu]@[q],
                ),
            crate::codec::point_ok(cur),
            0 <= diam <= 1_000_000,
            out@ == base + built,
            espec == emit_segs(sview, 0, last, diam as int),
            espec.0 == built + emit_segs(sview, u as nat, cur, diam as int).0,
            espec.1 == emit_segs(sview, u as nat, cur, diam as int).1,
        decreases m - u,
    {
        let sg = &isl[u];
        proof {
            assert(sview[u as int] == isl@[u as int]@);
        }
        let first = sg[0];
        let dd = crate::paths::d2_exec(&cur, &first);
        proof {
            assert(9 * (diam as int) * (diam as int) < 0x4000_0000_0000_0000) by (nonlinear_arith)
                requires
                    0 <= diam <= 1_000_000,
            ;
        }
        let far = 4 * dd > 9 * (diam as i128) * (diam as i128);
        if far {
            push_rapid(out, &first);
            proof {
                built = built + rapid_to(sview[u as int][0]);
            }
        }
        proof {
            assert((4 * (dd as int) > 9 * (diam as int) * (diam as int)) == (4 * d2(
                cur,
                sview[u as int][0],
            ) > 9 * (diam as int) * (diam as int)));
        }
        emit_seg_pts(out, sg);
        proof {
            built = built + emit_pts(sview[u as int], 0);
        }
        cur = sg[sg.len() - 1];
        proof {
            assert(cur == sview[u as int].last());
        }
        u = u + 1;
        proof {
            assert(out@ =~= base + built);
            assert(espec.0 =~= built + emit_segs(sview, u as nat, cur, diam as int).0);
        }
    }
    proof {
        assert(final(out)@ == base + espec.0);
    }
    cur
}

/// Append the G-code of one layer's ordered islands, starting from the
/// cutter position `last`; returns the position after the layer.
pub fn emit_layer(
    out: &mut Vec<u8>,
    islands: &Vec<Vec<Vec<Point3>>>,
    last: Point3,
    diam: i64,
) -> (np: Point3)
    requires
        forall|t: int| 0 <= t < islands@.len() ==> (#[trigger] islands@[t])@.len() > 0,
        forall|t: int, u: int|
            0 <= t < islands@.len() && 0 <= u < islands@[t]@.len() ==> (
            #[trigger] islands@[t]@[u])@.len() > 0,
        forall|t: int, u: int, q: int|
            0 <= t < islands@.len() && 0 <= u < islands@[t]@.len() && 0 <= q
                < islands@[t]@[u]@.len() ==> crate::codec::point_ok(#[trigger] islands@[t]@[u]@[q]),
        crate::codec::point_ok(last),
        0 <= diam <= 1_000_000,
    ensures
        ({
            let iview = Seq::new(
                islands@.len() as nat,
                |t: int| Seq::new(islands@[t]@.len() as nat, |u: int| islands@[t]@[u]@),
            );
            let spec = emit_islands(iview, 0, last, diam as int);
            &&& final(out)@ == old(out)@ + spec.0
            &&& np == spec.1
            &&& crate::codec::point_ok(np)
        }),
{
    let ghost iview = Seq::new(
        islands@.len() as nat,
        |t: int| Seq::new(islands@[t]@.len() as nat, |u: int| islands@[t]@[u]@),
    );
    let ghost base = out@;
    let ghost mut built: Seq<u8> = Seq::empty();
    let ghost espec = emit_islands(iview, 0, last, diam as int);
    let mut cur = last;
    let mut t: usize = 0;
    let n = islands.len();
    while t < n
        invariant
            0 <= t <= n,
            n == islands@.len(),
            iview == Seq::new(
                islands@.len() as nat,
                |tt: int| Seq::new(islands@[tt]@.len() as nat, |u: int| islands@[tt]@[u]@),
            ),
            forall|tt: int| 0 <= tt < islands@.len() ==> (#[trigger] islands@[tt])@.len() > 0,
            forall|tt: int, u: int|
                0 <= tt < islands@.len() && 0 <= u < islands@[tt]@.len() ==> (
                #[trigger] islands@[tt]@[u])@.len() > 0,
            forall|tt: int, u: int, q: int|
                0 <= tt < islands@.len() && 0 <= u < islands@[tt]@.len() && 0 <= q
                    < islands@[tt]@[u]@.len() ==> crate::codec::point_ok(
                    #[trigger] islands@[tt]@[u]@[q],
                ),
            crate::codec::point_ok(cur),
            0 <= diam <= 1_000_000,
            out@ == base + built,
            espec == emit_islands(iview, 0, last, diam as int),
            espec.0 == built + emit_islands(iview, t as nat, cur, diam as int).0,
            espec.1 == emit_islands(iview, t as nat, cur, diam as int).1,
        decreases n - t,
    {
        let isl = &islands[t];
        proof {
            assert(iview[t as int] == Seq::new(isl@.len() as nat, |u: int| isl@[u]@));
            assert forall|u: int| 0 <= u < isl@.len() implies (#[trigger] isl@[u])@.len() > 0 by {
                assert(islands@[t as int]@[u]@.len() > 0);
            };
        }
        let np1 = emit_island(out, isl, cur, diam);
        proof {
            built = built + emit_segs(iview[t as int], 0, cur, diam as int).0;
        }
        out.push(71);
        out.push(48);
        out.push(32);
        out.push(90);
        out.push(48);
        out.push(46);
        out.push(48);
        out.push(48);
        out.push(48);
        out.push(10);
        proof {
            built = built + island_end();
        }
        cur = np1;
        t = t + 1;
        proof {
            assert(out@ =~= base + built);
            assert(espec.0 =~= built + emit_islands(iview, t as nat, cur, diam as int).0);
        }
    }
    proof {
        assert(final(out)@ == base + espec.0);
    }
    cur
}

} // verus!
