//! Binary STL reading: an 80-byte header, a little-endian 32-bit facet
//! count, then 50-byte records of twelve little-endian IEEE 754 words
//! (normal and three vertices) and two attribute bytes. Vertex words are
//! quantized to micrometers with round-half-up magnitude; the normal is
//! ignored, as the engine re-derives orientation from the vertices.

use crate::geom::{Point3, Triangle};
use vstd::prelude::*;

verus! {

/// A little-endian 32-bit word at byte offset `off`.
pub open spec fn word_at(b: Seq<u8>, off: int) -> u32 {
    (b[off] as u32) | (b[off + 1] as u32) << 8 | (b[off + 2] as u32) << 16 | (b[off + 3] as u32)
        << 24
}

/// The micrometer value of an IEEE 754 single-precision word holding
/// millimeters: `None` for infinities, NaNs and magnitudes beyond the
/// coordinate limit. Rounds the exact scaled magnitude half-up.
pub open spec fn f32_um(bits: u32) -> Option<i64> {
    let neg = (bits >> 31) != 0;
    let e = (bits >> 23) & 0xff;
    let m = bits & 0x7f_ffff;
    if e == 0xff {
        Option::None
    } else {
        let e1: int = if e == 0 {
            1
        } else {
            e as int
        };
        let m1: int = if e == 0 {
            m as int
        } else {
            m as int + 0x80_0000
        };
        let num: int = m1 * 1000;
        if e1 >= 150 && num > 0 {
            Option::None
        } else {
            let q = 150 - e1;
            let val: int = if q > 40 {
                0
            } else {
                (num + ((1u64 << ((q - 1) as u64)) as int)) / ((1u64 << (q as u64)) as int)
            };
            if val > crate::geom::COORD_LIMIT {
                Option::None
            } else if neg {
                Option::Some((-val) as i64)
            } else {
                Option::Some(val as i64)
            }
        }
    }
}

/// The vertex decoded from the three words at `off`.
pub open spec fn vertex_at(b: Seq<u8>, off: int) -> Option<Point3> {
    let x = f32_um(word_at(b, off));
    let y = f32_um(word_at(b, off + 4));
    let z = f32_um(word_at(b, off + 8));
    if x is Some && y is Some && z is Some {
        Option::Some(Point3 { x: x->0, y: y->0, z: z->0 })
    } else {
        Option::None
    }
}

/// The facet record `i`: 50 bytes starting after the header and count,
/// with the three vertices after the 12 normal bytes.
pub open spec fn tri_at(b: Seq<u8>, i: int) -> Option<Triangle> {
    let off = 84 + 50 * i;
    let a = vertex_at(b, off + 12);
    let v2 = vertex_at(b, off + 24);
    let v3 = vertex_at(b, off + 36);
    if a is Some && v2 is Some && v3 is Some {
        Option::Some(Triangle { a: a->0, b: v2->0, c: v3->0 })
    } else {
        Option::None
    }
}

/// A byte string is a well-formed binary STL when it holds the header,
/// the count, exactly `count` records, and every vertex word is a finite
/// number within the coordinate limit.
pub open spec fn stl_ok(b: Seq<u8>) -> bool {
    &&& b.len() >= 84
    &&& b.len() == 84 + 50 * (word_at(b, 80) as int)
    &&& forall|i: int| 0 <= i < word_at(b, 80) as int ==> (#[trigger] tri_at(b, i)) is Some
}

/// The mesh a well-formed binary STL holds.
pub open spec fn stl_mesh(b: Seq<u8>) -> Seq<Triangle> {
    Seq::new(word_at(b, 80) as nat, |i: int| tri_at(b, i)->0)
}

/// Quantize one vertex word to micrometers; `None` where the word is not
/// a finite in-range number.
pub fn f32_to_um(bits: u32) -> (r: Option<i64>)
    ensures
        r == f32_um(bits),
{
    let neg = (bits >> 31u32) != 0;
    let e = (bits >> 23u32) & 0xff;
    let m = bits & 0x7f_ffff;
    if e == 0xff {
        return None;
    }
    let e1: u32 = if e == 0 {
        1
    } else {
        e
    };
    let m1: u64 = if e == 0 {
        m as u64
    } else {
        m as u64 + 0x80_0000
    };
    proof {
        assert(m == (bits & 0x7f_ffff));
        assert((bits & 0x7f_ffff) < 0x80_0000) by (bit_vector);
        assert(((bits >> 23u32) & 0xff) < 0x100) by (bit_vector);
    }
    let num: u64 = m1 * 1000;
    if e1 >= 150 && num > 0 {
        return None;
    }
    let q: u32 = 150 - e1;
    let val: u64 = if q > 40 {
        0
    } else {
        let qq: u64 = q as u64;
        proof {
            assert(1u64 << ((qq - 1) as u64) <= 0x80_0000_0000 && 1u64 << qq >= 1 && 1u64 << qq
                <= 0x100_0000_0000) by (bit_vector)
                requires
                    1 <= qq <= 40,
            ;
        }
        (num + (1u64 << ((qq - 1) as u64))) / (1u64 << qq)
    };
    proof {
        if q <= 40 {
            let qq: u64 = q as u64;
            assert(1u64 << ((qq - 1) as u64) == 1u64 << ((q as int - 1) as u64) && 1u64 << qq
                == 1u64 << (q as int as u64));
            vstd::arithmetic::div_mod::lemma_div_pos_is_pos(
                (num + (1u64 << ((qq - 1) as u64))) as int,
                (1u64 << qq) as int,
            );
        }
    }
    if val > crate::geom::COORD_LIMIT as u64 {
        None
    } else if neg {
        Some(-(val as i64))
    } else {
        Some(val as i64)
    }
}

fn read_f32um(b: &Vec<u8>, off: usize) -> (r: Option<i64>)
    requires
        off + 4 <= b.len(),
    ensures
        r == f32_um(word_at(b@, off as int)),
{
    let bits: u32 = b[off] as u32 | (b[off + 1] as u32) << 8u32 | (b[off + 2] as u32) << 16u32 | (
    b[off + 3] as u32) << 24u32;
    proof {
        assert(bits == word_at(b@, off as int));
    }
    f32_to_um(bits)
}

fn read_vertex(b: &Vec<u8>, off: usize) -> (r: Option<Point3>)
    requires
        off + 12 <= b.len(),
    ensures
        r == vertex_at(b@, off as int),
{
    let x = read_f32um(b, off);
    let y = read_f32um(b, off + 4);
    let z = read_f32um(b, off + 8);
    match (x, y, z) {
        (Option::Some(xv), Option::Some(yv), Option::Some(zv)) => Some(
            Point3 { x: xv, y: yv, z: zv },
        ),
        _ => None,
    }
}

/// Why a byte string was rejected as STL.
#[derive(Clone, Copy, PartialEq, Eq, Structural, Debug)]
pub enum StlError {
    /// Shorter than header plus count, or not the length the count says.
    Truncated,
    /// A vertex word is infinite, not a number, or out of range.
    BadVertex,
}

/// Read a binary STL byte string into a mesh. Returns every facet in file
/// order; fails exactly on strings that are not well-formed.
pub fn stl_to_tri(b: &Vec<u8>) -> (r: Result<Vec<Triangle>, StlError>)
    ensures
        r is Ok <==> stl_ok(b@),
        r matches Result::Ok(tris) ==> tris@ == stl_mesh(b@),
{
    if b.len() < 84 {
        return Err(StlError::Truncated);
    }
    let count: u32 = b[80] as u32 | (b[81] as u32) << 8u32 | (b[82] as u32) << 16u32 | (b[83]
        as u32) << 24u32;
    proof {
        assert(count == word_at(b@, 80));
    }
    let need: u64 = 84 + 50 * (count as u64);
    if (b.len() as u64) != need {
        return Err(StlError::Truncated);
    }
    let mut tris: Vec<Triangle> = Vec::new();
    let mut i: usize = 0;
    let mut off: usize = 84;
    while i < count as usize
        invariant
            0 <= i <= count,
            b@.len() == 84 + 50 * (count as int),
            b@.len() <= usize::MAX,
            count == word_at(b@, 80),
            off == 84 + 50 * (i as int),
            tris@.len() == i,
            forall|k: int|
                0 <= k < i ==> (#[trigger] tri_at(b@, k)) is Some && tris@[k] == tri_at(b@, k)->0,
        decreases count - i,
    {
        proof {
            assert(50 * (i as int) + 50 <= 50 * (count as int)) by (nonlinear_arith)
                requires
                    i < count,
            ;
        }
        let va = read_vertex(b, off + 12);
        let vb = read_vertex(b, off + 24);
        let vc = read_vertex(b, off + 36);
        match (va, vb, vc) {
            (Option::Some(a), Option::Some(v2), Option::Some(v3)) => {
                tris.push(Triangle { a, b: v2, c: v3 });
                proof {
                    assert(tri_at(b@, i as int) is Some);
                    assert(tri_at(b@, i as int)->0 == Triangle { a, b: v2, c: v3 });
                }
            },
            _ => {
                proof {
                    assert(!(tri_at(b@, i as int) is Some));
                }
                return Err(StlError::BadVertex);
            },
        }
        off = off + 50;
        i = i + 1;
    }
    proof {
        assert(stl_ok(b@));
        assert(tris@ =~= stl_mesh(b@));
    }
    Ok(tris)
}

/// A decoded vertex word is within the raw coordinate limit.
proof fn lemma_f32_um_range(bits: u32)
    ensures
        f32_um(bits) matches Option::Some(v) ==> -crate::geom::COORD_LIMIT <= v
            <= crate::geom::COORD_LIMIT,
{
    let e = (bits >> 23) & 0xff;
    let m = bits & 0x7f_ffff;
    if e != 0xff {
        let e1: int = if e == 0 {
            1
        } else {
            e as int
        };
        let m1: int = if e == 0 {
            m as int
        } else {
            m as int + 0x80_0000
        };
        let num: int = m1 * 1000;
        if !(e1 >= 150 && num > 0) {
            let q = 150 - e1;
            if q <= 40 {
                assert(((bits & 0x7f_ffff) as int) >= 0);
                assert(num >= 0);
                assert(1u64 << ((q - 1) as u64) >= 0);
                let qq: u64 = q as u64;
                assert((1u64 << qq) >= 1) by (bit_vector)
                    requires
                        qq <= 40,
                ;
                vstd::arithmetic::div_mod::lemma_div_pos_is_pos(
                    num + ((1u64 << ((q - 1) as u64)) as int),
                    (1u64 << (q as u64)) as int,
                );
            }
        }
    }
}

/// A decoded vertex has all coordinates within the raw limit.
proof fn lemma_vertex_range(b: Seq<u8>, off: int)
    ensures
        vertex_at(b, off) matches Option::Some(p) ==> crate::geom::pt_in_range(
            p,
            crate::geom::COORD_LIMIT as int,
        ),
{
    lemma_f32_um_range(word_at(b, off));
    lemma_f32_um_range(word_at(b, off + 4));
    lemma_f32_um_range(word_at(b, off + 8));
}

/// Every coordinate a well-formed STL yields is within the raw limit.
pub proof fn lemma_stl_mesh_range(b: Seq<u8>)
    requires
        stl_ok(b),
    ensures
        crate::geom::mesh_in_range(stl_mesh(b), crate::geom::COORD_LIMIT as int),
{
    let mesh = stl_mesh(b);
    assert forall|i: int| 0 <= i < mesh.len() implies crate::geom::tri_in_range(
        #[trigger] mesh[i],
        crate::geom::COORD_LIMIT as int,
    ) by {
        assert(tri_at(b, i) is Some);
        let off = 84 + 50 * i;
        lemma_vertex_range(b, off + 12);
        lemma_vertex_range(b, off + 24);
        lemma_vertex_range(b, off + 36);
    };
}

} // verus!
